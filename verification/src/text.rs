//! Verified text utilities: trimming, scanning and splitting the signature
//! dialect, and decimal spellings of lengths and table indices.

use vstd::prelude::*;
use vstd::string::*;

verus! {

// ---------------------------------------------------------------------------
// Whitespace and trimming
// ---------------------------------------------------------------------------

/// The whitespace characters this dialect trims around names and arguments.
pub open spec fn is_space(c: char) -> bool {
    c == ' ' || c == '\t' || c == '\n' || c == '\r'
}

/// `s` without its leading whitespace.
pub open spec fn trim_front(s: Seq<char>) -> Seq<char>
    decreases s.len(),
{
    if s.len() > 0 && is_space(s[0]) {
        trim_front(s.drop_first())
    } else {
        s
    }
}

/// `s` without its trailing whitespace.
pub open spec fn trim_back(s: Seq<char>) -> Seq<char>
    decreases s.len(),
{
    if s.len() > 0 && is_space(s[s.len() - 1]) {
        trim_back(s.drop_last())
    } else {
        s
    }
}

/// `s` without surrounding whitespace.
pub open spec fn trimmed(s: Seq<char>) -> Seq<char> {
    trim_back(trim_front(s))
}

proof fn lemma_trim_front_at(s: Seq<char>, a: int)
    requires
        0 <= a <= s.len(),
        forall|k: int| 0 <= k < a ==> is_space(s[k]),
        a == s.len() || !is_space(s[a]),
    ensures
        trim_front(s) == s.subrange(a, s.len() as int),
    decreases a,
{
    if a == 0 {
        assert(s.subrange(0, s.len() as int) =~= s);
    } else {
        let t = s.drop_first();
        assert(forall|k: int| 0 <= k < a - 1 ==> is_space(#[trigger] t[k])) by {
            assert(forall|k: int| 0 <= k < a - 1 ==> #[trigger] t[k] == s[k + 1]);
        }
        lemma_trim_front_at(t, a - 1);
        assert(t.subrange(a - 1, t.len() as int) =~= s.subrange(a, s.len() as int));
    }
}

proof fn lemma_trim_back_at(s: Seq<char>, b: int)
    requires
        0 <= b <= s.len(),
        forall|k: int| b <= k < s.len() ==> is_space(s[k]),
        b == 0 || !is_space(s[b - 1]),
    ensures
        trim_back(s) == s.subrange(0, b),
    decreases s.len() - b,
{
    if b == s.len() {
        assert(s.subrange(0, s.len() as int) =~= s);
    } else {
        let t = s.drop_last();
        assert(is_space(s[s.len() - 1]));
        assert(forall|k: int| b <= k < t.len() ==> is_space(#[trigger] t[k])) by {
            assert(forall|k: int| b <= k < t.len() ==> #[trigger] t[k] == s[k]);
        }
        lemma_trim_back_at(t, b);
        assert(t.subrange(0, b) =~= s.subrange(0, b));
    }
}

fn is_space_char(c: char) -> (r: bool)
    ensures
        r == is_space(c),
{
    c == ' ' || c == '\t' || c == '\n' || c == '\r'
}

/// A fresh string holding `s` without surrounding whitespace.
pub fn trim(s: &str) -> (r: String)
    ensures
        r@ == trimmed(s@),
{
    let len = s.unicode_len();
    let mut a: usize = 0;
    while a < len && is_space_char(s.get_char(a))
        invariant
            a <= len,
            len == s@.len(),
            forall|k: int| 0 <= k < a ==> is_space(s@[k]),
        decreases len - a,
    {
        a = a + 1;
    }
    proof {
        lemma_trim_front_at(s@, a as int);
    }
    let mut b: usize = len;
    while b > a && is_space_char(s.get_char(b - 1))
        invariant
            a <= b <= len,
            len == s@.len(),
            forall|k: int| b <= k < len ==> is_space(s@[k]),
        decreases b,
    {
        b = b - 1;
    }
    proof {
        let t = s@.subrange(a as int, len as int);
        assert(forall|k: int| b - a <= k < t.len() ==> is_space(#[trigger] t[k])) by {
            assert(forall|k: int| 0 <= k < t.len() ==> #[trigger] t[k] == s@[k + a]);
        }
        lemma_trim_back_at(t, b - a);
        assert(t.subrange(0, b - a) =~= s@.subrange(a as int, b as int));
    }
    String::from_str(s.substring_char(a, b))
}

// ---------------------------------------------------------------------------
// Finding and counting characters
// ---------------------------------------------------------------------------

/// The position of the first occurrence of `c` in `s`, if any.
pub open spec fn find_char(s: Seq<char>, c: char) -> Option<int>
    decreases s.len(),
{
    if s.len() == 0 {
        None
    } else if s[0] == c {
        Some(0)
    } else {
        match find_char(s.drop_first(), c) {
            Some(i) => Some(i + 1),
            None => None,
        }
    }
}

/// What `find_char` returns: the first position holding `c`, or `None` when
/// `c` does not occur at all.
pub proof fn lemma_find_char(s: Seq<char>, c: char)
    ensures
        match find_char(s, c) {
            Some(i) => 0 <= i < s.len() && s[i] == c && forall|k: int| 0 <= k < i ==> s[k] != c,
            None => forall|k: int| 0 <= k < s.len() ==> s[k] != c,
        },
    decreases s.len(),
{
    if s.len() == 0 {
    } else if s[0] == c {
    } else {
        let t = s.drop_first();
        lemma_find_char(t, c);
        match find_char(t, c) {
            Some(i) => {
                assert(t[i] == s[i + 1]);
                assert forall|k: int| 0 <= k < i + 1 implies s[k] != c by {
                    if k >= 1 {
                        assert(t[k - 1] == s[k]);
                    }
                }
            },
            None => {
                assert forall|k: int| 0 <= k < s.len() implies s[k] != c by {
                    if k >= 1 {
                        assert(t[k - 1] == s[k]);
                    }
                }
            },
        }
    }
}

/// The position of the first occurrence of `c` in `s`, if any.
pub fn find_char_str(s: &str, c: char) -> (r: Option<usize>)
    ensures
        match r {
            Some(j) => find_char(s@, c) == Some(j as int),
            None => find_char(s@, c) is None,
        },
{
    let len = s.unicode_len();
    let mut j: usize = 0;
    while j < len
        invariant
            j <= len,
            len == s@.len(),
            forall|k: int| 0 <= k < j ==> s@[k] != c,
        decreases len - j,
    {
        if s.get_char(j) == c {
            proof {
                lemma_find_char(s@, c);
            }
            return Some(j);
        }
        j = j + 1;
    }
    proof {
        lemma_find_char(s@, c);
    }
    None
}

/// How many times `c` occurs in `s`.
pub open spec fn count_char(s: Seq<char>, c: char) -> nat
    decreases s.len(),
{
    if s.len() == 0 {
        0
    } else {
        count_char(s.drop_last(), c) + (if s.last() == c {
            1nat
        } else {
            0nat
        })
    }
}

/// Counts the occurrences of `c` in `s`.
pub fn count_char_str(s: &str, c: char) -> (r: usize)
    ensures
        r == count_char(s@, c),
{
    let len = s.unicode_len();
    let mut j: usize = 0;
    let mut cnt: usize = 0;
    while j < len
        invariant
            j <= len,
            cnt <= j,
            len == s@.len(),
            cnt == count_char(s@.subrange(0, j as int), c),
        decreases len - j,
    {
        let ghost pre = s@.subrange(0, j as int);
        if s.get_char(j) == c {
            cnt = cnt + 1;
        }
        j = j + 1;
        proof {
            let cur = s@.subrange(0, j as int);
            assert(cur.drop_last() =~= pre);
            assert(cur.last() == s@[j - 1]);
        }
    }
    proof {
        assert(s@.subrange(0, len as int) =~= s@);
    }
    cnt
}

/// Whether `c` occurs in `s`.
pub fn str_contains_char(s: &str, c: char) -> (r: bool)
    ensures
        r == s@.contains(c),
{
    let len = s.unicode_len();
    let mut j: usize = 0;
    while j < len
        invariant
            j <= len,
            len == s@.len(),
            forall|k: int| 0 <= k < j ==> s@[k] != c,
        decreases len - j,
    {
        if s.get_char(j) == c {
            return true;
        }
        j = j + 1;
    }
    false
}

// ---------------------------------------------------------------------------
// The `const` keyword
// ---------------------------------------------------------------------------

/// The characters of the keyword `const`.
pub open spec fn const_kw() -> Seq<char> {
    seq!['c', 'o', 'n', 's', 't']
}

/// Whether the keyword `const` occupies positions `i .. i + 5` of `s`.
pub open spec fn const_at(s: Seq<char>, i: int) -> bool {
    0 <= i && i + 5 <= s.len() && s.subrange(i, i + 5) == const_kw()
}

/// Whether `s` contains the keyword `const` anywhere.
pub open spec fn contains_const(s: Seq<char>) -> bool {
    exists|i: int| const_at(s, i)
}

/// Whether `const` stands at position `i` of `s`.
pub(crate) fn const_at_str(s: &str, i: usize) -> (r: bool)
    requires
        i + 5 <= s@.len(),
        s@.len() <= usize::MAX,
    ensures
        r == const_at(s@, i as int),
{
    let r = s.get_char(i) == 'c' && s.get_char(i + 1) == 'o' && s.get_char(i + 2) == 'n'
        && s.get_char(i + 3) == 's' && s.get_char(i + 4) == 't';
    proof {
        let sub = s@.subrange(i as int, i as int + 5);
        assert(sub[0] == s@[i as int]);
        assert(sub[1] == s@[i as int + 1]);
        assert(sub[2] == s@[i as int + 2]);
        assert(sub[3] == s@[i as int + 3]);
        assert(sub[4] == s@[i as int + 4]);
        if r {
            assert(sub =~= const_kw());
        }
    }
    r
}

/// Whether `s` contains the keyword `const`.
pub fn str_contains_const(s: &str) -> (r: bool)
    ensures
        r == contains_const(s@),
{
    let len = s.unicode_len();
    if len < 5 {
        proof {
            assert(!contains_const(s@)) by {
                if contains_const(s@) {
                    let i = choose|i: int| const_at(s@, i);
                }
            }
        }
        return false;
    }
    let mut j: usize = 0;
    while j <= len - 5
        invariant
            5 <= len,
            j <= len - 4,
            len == s@.len(),
            forall|k: int| 0 <= k < j ==> !const_at(s@, k),
        decreases len - j,
    {
        if const_at_str(s, j) {
            proof {
                assert(const_at(s@, j as int));
            }
            return true;
        }
        j = j + 1;
    }
    proof {
        assert(!contains_const(s@)) by {
            if contains_const(s@) {
                let i = choose|i: int| const_at(s@, i);
                assert(!const_at(s@, i));
            }
        }
    }
    false
}

// ---------------------------------------------------------------------------
// Splitting on `::` and on commas
// ---------------------------------------------------------------------------

/// Whether a `::` separator stands at position `k` of `s`.
pub open spec fn sep2_at(s: Seq<char>, k: int) -> bool {
    0 <= k && k + 2 <= s.len() && s[k] == ':' && s[k + 1] == ':'
}

/// The position of the first `::` in `s`, if any.
pub open spec fn find_sep2(s: Seq<char>) -> Option<int>
    decreases s.len(),
{
    if s.len() < 2 {
        None
    } else if s[0] == ':' && s[1] == ':' {
        Some(0)
    } else {
        match find_sep2(s.drop_first()) {
            Some(i) => Some(i + 1),
            None => None,
        }
    }
}

/// What `find_sep2` returns: the first position where `::` stands, or `None`
/// when no `::` occurs.
pub proof fn lemma_find_sep2(s: Seq<char>)
    ensures
        match find_sep2(s) {
            Some(i) => sep2_at(s, i) && forall|k: int| 0 <= k < i ==> !sep2_at(s, k),
            None => forall|k: int| !sep2_at(s, k),
        },
    decreases s.len(),
{
    if s.len() < 2 {
    } else if s[0] == ':' && s[1] == ':' {
    } else {
        let t = s.drop_first();
        lemma_find_sep2(t);
        assert(forall|k: int| 0 <= k && k + 1 < s.len() ==> s[k + 1] == #[trigger] t[k]);
        assert(forall|k: int| #[trigger] sep2_at(s, k) ==> k >= 1 && sep2_at(t, k - 1));
        assert(forall|k: int| 0 <= k && #[trigger] sep2_at(t, k) ==> sep2_at(s, k + 1));
    }
}

/// The position of the first `::` in `s`, if any.
fn find_sep2_str(s: &str) -> (r: Option<usize>)
    ensures
        match r {
            Some(j) => find_sep2(s@) == Some(j as int),
            None => find_sep2(s@) is None,
        },
{
    let len = s.unicode_len();
    let mut j: usize = 0;
    while len - j >= 2
        invariant
            j <= len,
            len == s@.len(),
            forall|k: int| 0 <= k < j ==> !sep2_at(s@, k),
        decreases len - j,
    {
        if s.get_char(j) == ':' && s.get_char(j + 1) == ':' {
            proof {
                assert(sep2_at(s@, j as int));
                lemma_find_sep2(s@);
            }
            return Some(j);
        }
        j = j + 1;
    }
    proof {
        lemma_find_sep2(s@);
        if find_sep2(s@) is Some {
            let i = find_sep2(s@)->Some_0;
            assert(sep2_at(s@, i));
            assert(!sep2_at(s@, i));
        }
    }
    None
}

/// Splits `s` at every `::`, keeping the pieces in order.
pub open spec fn split_path(s: Seq<char>) -> Seq<Seq<char>>
    decreases s.len(),
{
    match find_sep2(s) {
        None => seq![s],
        Some(i) => if 0 <= i && i + 2 <= s.len() {
            seq![s.subrange(0, i)] + split_path(s.subrange(i + 2, s.len() as int))
        } else {
            seq![s]
        },
    }
}

/// The views of a vector of strings.
pub open spec fn views_of(v: Seq<String>) -> Seq<Seq<char>> {
    v.map_values(|p: String| p@)
}

/// Splits `s` at every `::`, keeping the pieces in order.
pub fn split_path_str(s: &str) -> (r: Vec<String>)
    ensures
        views_of(r@) == split_path(s@),
{
    let mut pieces: Vec<String> = Vec::new();
    let mut rest: &str = s;
    proof {
        assert(views_of(pieces@) + split_path(rest@) =~~= split_path(s@));
    }
    loop
        invariant
            views_of(pieces@) + split_path(rest@) == split_path(s@),
        ensures
            views_of(pieces@) == split_path(s@),
        decreases rest@.len(),
    {
        let ghost old_pieces = pieces@;
        match find_sep2_str(rest) {
            Some(j) => {
                proof {
                    lemma_find_sep2(rest@);
                }
                let len = rest.unicode_len();
                let piece = String::from_str(rest.substring_char(0, j));
                pieces.push(piece);
                let new_rest = rest.substring_char(j + 2, len);
                proof {
                    assert(split_path(rest@) == seq![rest@.subrange(0, j as int)] + split_path(
                        new_rest@,
                    ));
                    assert(views_of(pieces@) =~~= views_of(old_pieces) + seq![piece@]);
                    assert(views_of(pieces@) + split_path(new_rest@) =~~= views_of(old_pieces)
                        + split_path(rest@));
                }
                rest = new_rest;
            },
            None => {
                pieces.push(String::from_str(rest));
                proof {
                    assert(split_path(rest@) == seq![rest@]);
                    assert(views_of(pieces@) =~~= views_of(old_pieces) + seq![rest@]);
                    assert(views_of(pieces@) =~~= split_path(s@));
                }
                return pieces;
            },
        }
    }
}

/// Splits `s` at every comma, keeping the pieces in order.
pub open spec fn split_commas(s: Seq<char>) -> Seq<Seq<char>>
    decreases s.len(),
{
    match find_char(s, ',') {
        None => seq![s],
        Some(i) => if 0 <= i && i + 1 <= s.len() {
            seq![s.subrange(0, i)] + split_commas(s.subrange(i + 1, s.len() as int))
        } else {
            seq![s]
        },
    }
}

/// Splits `s` at every comma, keeping the pieces in order.
pub fn split_commas_str(s: &str) -> (r: Vec<String>)
    ensures
        views_of(r@) == split_commas(s@),
{
    let mut pieces: Vec<String> = Vec::new();
    let mut rest: &str = s;
    proof {
        assert(views_of(pieces@) + split_commas(rest@) =~~= split_commas(s@));
    }
    loop
        invariant
            views_of(pieces@) + split_commas(rest@) == split_commas(s@),
        ensures
            views_of(pieces@) == split_commas(s@),
        decreases rest@.len(),
    {
        let ghost old_pieces = pieces@;
        match find_char_str(rest, ',') {
            Some(j) => {
                proof {
                    lemma_find_char(rest@, ',');
                }
                let len = rest.unicode_len();
                let piece = String::from_str(rest.substring_char(0, j));
                pieces.push(piece);
                let new_rest = rest.substring_char(j + 1, len);
                proof {
                    assert(split_commas(rest@) == seq![rest@.subrange(0, j as int)]
                        + split_commas(new_rest@));
                    assert(views_of(pieces@) =~~= views_of(old_pieces) + seq![piece@]);
                    assert(views_of(pieces@) + split_commas(new_rest@) =~~= views_of(old_pieces)
                        + split_commas(rest@));
                }
                rest = new_rest;
            },
            None => {
                pieces.push(String::from_str(rest));
                proof {
                    assert(split_commas(rest@) == seq![rest@]);
                    assert(views_of(pieces@) =~~= views_of(old_pieces) + seq![rest@]);
                    assert(views_of(pieces@) =~~= split_commas(s@));
                }
                return pieces;
            },
        }
    }
}

// ---------------------------------------------------------------------------
// Decimal spellings
// ---------------------------------------------------------------------------

/// The digit character for one decimal digit value.
pub open spec fn digit_char(d: int) -> char
    recommends
        0 <= d <= 9,
{
    if d == 0 {
        '0'
    } else if d == 1 {
        '1'
    } else if d == 2 {
        '2'
    } else if d == 3 {
        '3'
    } else if d == 4 {
        '4'
    } else if d == 5 {
        '5'
    } else if d == 6 {
        '6'
    } else if d == 7 {
        '7'
    } else {
        if d == 8 {
            '8'
        } else {
            '9'
        }
    }
}

/// The decimal spelling of a non-negative integer, most significant digit
/// first, without leading zeroes.
pub open spec fn dec_rec(n: int) -> Seq<char>
    recommends
        n >= 0,
    decreases n,
{
    if n <= 9 {
        seq![digit_char(n)]
    } else {
        dec_rec(n / 10).push(digit_char(n % 10))
    }
}

fn digit_str(d: usize) -> (r: &'static str)
    requires
        d <= 9,
    ensures
        r@ == seq![digit_char(d as int)],
{
    let r: &'static str = if d == 0 {
        "0"
    } else if d == 1 {
        "1"
    } else if d == 2 {
        "2"
    } else if d == 3 {
        "3"
    } else if d == 4 {
        "4"
    } else if d == 5 {
        "5"
    } else if d == 6 {
        "6"
    } else if d == 7 {
        "7"
    } else if d == 8 {
        "8"
    } else {
        "9"
    };
    proof {
        reveal_strlit("0");
        reveal_strlit("1");
        reveal_strlit("2");
        reveal_strlit("3");
        reveal_strlit("4");
        reveal_strlit("5");
        reveal_strlit("6");
        reveal_strlit("7");
        reveal_strlit("8");
        reveal_strlit("9");
        assert(r@ =~= seq![digit_char(d as int)]);
    }
    r
}

/// The decimal spelling of `n`.
pub fn usize_dec(n: usize) -> (r: String)
    ensures
        r@ == dec_rec(n as int),
    decreases n,
{
    if n <= 9 {
        String::from_str(digit_str(n))
    } else {
        let mut r = usize_dec(n / 10);
        r.append(digit_str(n % 10));
        proof {
            assert(r@ =~= dec_rec(n as int));
        }
        r
    }
}

} // verus!
