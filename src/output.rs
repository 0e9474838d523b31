//! Naming of output files: numbered variants of a file name for the case where
//! the name is already taken.

use vstd::prelude::*;

verus! {

pub open spec fn digits() -> Seq<char> {
    seq!['0', '1', '2', '3', '4', '5', '6', '7', '8', '9']
}

/// The decimal notation of `n`.
pub open spec fn decimal(n: nat) -> Seq<char>
    decreases n,
{
    if n < 10 {
        seq![digits()[n as int]]
    } else {
        decimal(n / 10).push(digits()[(n % 10) as int])
    }
}

/// `i` is the dot that separates a file name's stem from its extension: the
/// last dot, provided it is not the first character.
pub open spec fn is_extension_dot(s: Seq<char>, i: int) -> bool {
    &&& 0 < i < s.len()
    &&& s[i] == '.'
    &&& forall|j: int| i < j < s.len() ==> s[j] != '.'
}

/// The file name without its extension.
pub open spec fn stem_of(s: Seq<char>) -> Seq<char> {
    if exists|i: int| is_extension_dot(s, i) {
        s.take(choose|i: int| is_extension_dot(s, i))
    } else {
        s
    }
}

/// The extension of a file name with its dot, empty when it has none.
pub open spec fn dotted_extension(s: Seq<char>) -> Seq<char> {
    if exists|i: int| is_extension_dot(s, i) {
        s.skip(choose|i: int| is_extension_dot(s, i))
    } else {
        Seq::empty()
    }
}

/// The `n`-th numbered variant of a file name: `stem_n.ext`, or `stem_n` when
/// the name has no extension.
pub open spec fn numbered_name(s: Seq<char>, n: nat) -> Seq<char> {
    stem_of(s) + seq!['_'] + decimal(n) + dotted_extension(s)
}

proof fn lemma_extension_dot_unique(s: Seq<char>, a: int, b: int)
    requires
        is_extension_dot(s, a),
        is_extension_dot(s, b),
    ensures
        a == b,
{
}

/// The decimal notation of `n`.
pub fn decimal_string(n: u32) -> (r: String)
    ensures
        r@ == decimal(n as nat),
{
    proof {
        reveal_strlit("0123456789");
        assert("0123456789"@ =~= digits());
    }
    let mut m: u32 = n;
    let mut s = String::new();
    while m >= 10
        invariant
            decimal(n as nat) == decimal(m as nat) + s@,
            "0123456789"@ == digits(),
        decreases m,
    {
        let d = (m % 10) as usize;
        let digit = "0123456789".substring_char(d, d + 1);
        let ghost old_s = s@;
        s = String::from_str(digit).concat(s.as_str());
        proof {
            assert(digit@ =~= seq![digits()[d as int]]);
            assert(decimal(m as nat) == decimal((m / 10) as nat).push(digits()[d as int]));
            assert(decimal(m as nat) + old_s =~= decimal((m / 10) as nat) + s@);
        }
        m = m / 10;
    }
    let d = m as usize;
    let digit = "0123456789".substring_char(d, d + 1);
    let ghost old_s = s@;
    let r = String::from_str(digit).concat(s.as_str());
    proof {
        assert(digit@ =~= seq![digits()[d as int]]);
        assert(decimal(m as nat) + old_s =~= r@);
    }
    r
}

/// The name tried at a given attempt: the name itself at the first attempt
/// (`None`), its `n`-th numbered variant at attempt `Some(n)`.
pub fn candidate_filename(filename: &str, num: Option<u32>) -> (r: String)
    ensures
        r@ == match num {
            None => filename@,
            Some(n) => numbered_name(filename@, n as nat),
        },
{
    let n = match num {
        None => return String::from_str(filename),
        Some(n) => n,
    };
    let len = filename.unicode_len();
    let mut dot: Option<usize> = None;
    let mut i: usize = 1;
    while i < len
        invariant
            len == filename@.len(),
            1 <= i,
            i <= len || len == 0,
            dot is Some ==> i <= len,
            match dot {
                Some(k) => is_extension_dot(filename@.take(i as int), k as int),
                None => forall|j: int| 0 < j < i ==> filename@[j] != '.',
            },
        decreases len - i,
    {
        if filename.get_char(i) == '.' {
            dot = Some(i);
        }
        i += 1;
    }
    let (stem, ext) = match dot {
        Some(k) => {
            proof {
                assert forall|j: int| k < j < filename@.len() implies filename@[j] != '.' by {
                    assert(filename@.take(i as int)[j] == filename@[j]);
                }
                assert(is_extension_dot(filename@, k as int));
                let c = choose|c: int| is_extension_dot(filename@, c);
                lemma_extension_dot_unique(filename@, k as int, c);
            }
            (filename.substring_char(0, k), filename.substring_char(k, len))
        },
        None => {
            proof {
                assert forall|c: int| !is_extension_dot(filename@, c) by {
                    if 0 < c < filename@.len() {
                        assert(filename@[c] != '.');
                    }
                }
            }
            (filename, "")
        },
    };
    proof {
        reveal_strlit("_");
        reveal_strlit("");
    }
    let digits = decimal_string(n);
    let r = String::from_str(stem).concat("_").concat(digits.as_str()).concat(ext);
    proof {
        assert(r@ =~= numbered_name(filename@, n as nat));
    }
    r
}

/// The attempt after `num`: numbering starts at 1 after the plain name is
/// taken; `None` once the numbers are exhausted.
pub fn next_suffix(num: Option<u32>) -> (r: Option<u32>)
    ensures
        r == match num {
            None => Some(1u32),
            Some(n) => if n < u32::MAX {
                Some((n + 1) as u32)
            } else {
                None
            },
        },
{
    match num {
        None => Some(1),
        Some(n) => n.checked_add(1),
    }
}

/// What follows a failed attempt to create a file under a candidate name.
#[derive(Debug, PartialEq, Eq)]
pub enum NextAttempt {
    /// Try the numbered variant with this number.
    Retry(u32),
    /// The name was taken and no numbers are left.
    Exhausted,
    /// The creation failed for another reason than a taken name: give up.
    Fail,
}

/// Decides what follows a failed attempt `num`: only a taken name leads to the
/// next numbered variant.
pub fn next_attempt(num: Option<u32>, already_exists: bool) -> (r: NextAttempt)
    ensures
        !already_exists ==> r is Fail,
        already_exists ==> match num {
            None => r matches NextAttempt::Retry(k) && k == 1,
            Some(n) => if n < u32::MAX {
                r matches NextAttempt::Retry(k) && k == n + 1
            } else {
                r is Exhausted
            },
        },
{
    if !already_exists {
        return NextAttempt::Fail;
    }
    match next_suffix(num) {
        Some(k) => NextAttempt::Retry(k),
        None => NextAttempt::Exhausted,
    }
}

proof fn lemma_decimal_len(n: nat)
    ensures
        decimal(n).len() >= 1,
        n >= 10 ==> decimal(n).len() >= 2,
    decreases n,
{
    if n >= 10 {
        lemma_decimal_len(n / 10);
    }
}

proof fn lemma_digits_distinct(x: int, y: int)
    requires
        0 <= x < 10,
        0 <= y < 10,
        digits()[x] == digits()[y],
    ensures
        x == y,
{
    let d = digits();
    assert(d[0] == '0' && d[1] == '1' && d[2] == '2' && d[3] == '3' && d[4] == '4');
    assert(d[5] == '5' && d[6] == '6' && d[7] == '7' && d[8] == '8' && d[9] == '9');
    assert(x == 0 || x == 1 || x == 2 || x == 3 || x == 4 || x == 5 || x == 6 || x == 7 || x == 8
        || x == 9);
    assert(y == 0 || y == 1 || y == 2 || y == 3 || y == 4 || y == 5 || y == 6 || y == 7 || y == 8
        || y == 9);
}

proof fn lemma_decimal_injective(a: nat, b: nat)
    requires
        decimal(a) == decimal(b),
    ensures
        a == b,
    decreases a,
{
    lemma_decimal_len(a);
    lemma_decimal_len(b);
    if a >= 10 && b >= 10 {
        let da = decimal(a);
        let db = decimal(b);
        assert(da.last() == db.last());
        assert(da.drop_last() =~= decimal(a / 10));
        assert(db.drop_last() =~= decimal(b / 10));
        lemma_decimal_injective(a / 10, b / 10);
        assert(digits()[(a % 10) as int] == digits()[(b % 10) as int]);
        lemma_digits_distinct((a % 10) as int, (b % 10) as int);
    } else if a < 10 && b < 10 {
        assert(decimal(a)[0] == decimal(b)[0]);
        assert(decimal(a)[0] == digits()[a as int] && decimal(b)[0] == digits()[b as int]);
        lemma_digits_distinct(a as int, b as int);
    }
}

/// Distinct attempts try distinct names, so the search for a free name never
/// tries the same name twice.
pub proof fn lemma_numbered_names_distinct(s: Seq<char>, a: nat, b: nat)
    requires
        a != b,
    ensures
        numbered_name(s, a) != numbered_name(s, b),
{
    if numbered_name(s, a) == numbered_name(s, b) {
        let p: int = stem_of(s).len() as int + 1;
        let na = numbered_name(s, a);
        let nb = numbered_name(s, b);
        assert(na.len() == stem_of(s).len() + 1 + decimal(a).len() + dotted_extension(s).len());
        assert(nb.len() == stem_of(s).len() + 1 + decimal(b).len() + dotted_extension(s).len());
        assert(decimal(a).len() == decimal(b).len());
        assert(na.subrange(p, p + decimal(a).len() as int) =~= decimal(a));
        assert(nb.subrange(p, p + decimal(b).len() as int) =~= decimal(b));
        lemma_decimal_injective(a, b);
    }
}

} // verus!
