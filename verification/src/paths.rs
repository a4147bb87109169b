//! Path strings and file-name arithmetic.
//!
//! Paths are plain `String`s separated by `/`. This module defines the
//! specification-level meaning of "name", "parent", "join", hidden names,
//! lexicographic name order, and the `stem_N.ext` numbering used to avoid
//! name collisions, together with verified executable counterparts.

use vstd::prelude::*;

verus! {

/// Index of the last occurrence of `c` in `s`, or `-1` if `c` does not occur.
pub open spec fn last_index_of_char(s: Seq<char>, c: char) -> int
    decreases s.len(),
{
    if s.len() == 0 {
        -1
    } else if s[s.len() - 1] == c {
        s.len() - 1
    } else {
        last_index_of_char(s.drop_last(), c)
    }
}

pub proof fn lemma_last_index_of_char(s: Seq<char>, c: char)
    ensures
        -1 <= last_index_of_char(s, c) < s.len(),
        last_index_of_char(s, c) >= 0 ==> s[last_index_of_char(s, c)] == c,
        forall|j: int| last_index_of_char(s, c) < j < s.len() ==> s[j] != c,
    decreases s.len(),
{
    if s.len() > 0 && s[s.len() - 1] != c {
        lemma_last_index_of_char(s.drop_last(), c);
        assert(forall|j: int| 0 <= j < s.len() - 1 ==> s[j] == s.drop_last()[j]);
    }
}

/// The characterization above pins `last_index_of_char` down uniquely.
pub proof fn lemma_last_index_of_char_unique(s: Seq<char>, c: char, i: int)
    requires
        0 <= i < s.len(),
        s[i] == c,
        forall|j: int| i < j < s.len() ==> s[j] != c,
    ensures
        last_index_of_char(s, c) == i,
    decreases s.len(),
{
    if s[s.len() - 1] != c {
        lemma_last_index_of_char_unique(s.drop_last(), c, i);
    }
}

pub proof fn lemma_last_index_of_char_absent(s: Seq<char>, c: char)
    requires
        forall|j: int| 0 <= j < s.len() ==> s[j] != c,
    ensures
        last_index_of_char(s, c) == -1,
    decreases s.len(),
{
    if s.len() > 0 {
        lemma_last_index_of_char_absent(s.drop_last(), c);
    }
}

/// Last occurrence of `c` in `p`, as an executable search.
pub fn find_last_char(p: &str, c: char) -> (r: Option<usize>)
    ensures
        r is Some ==> last_index_of_char(p@, c) == r->0 as int,
        r is None ==> last_index_of_char(p@, c) == -1,
{
    let n = p.unicode_len();
    let mut best: Option<usize> = None;
    let mut i: usize = 0;
    while i < n
        invariant
            n == p@.len(),
            i <= n,
            best is Some ==> best->0 < i && p@[best->0 as int] == c && forall|j: int|
                best->0 < j < i ==> p@[j] != c,
            best is None ==> forall|j: int| 0 <= j < i ==> p@[j] != c,
        decreases n - i,
    {
        if p.get_char(i) == c {
            best = Some(i);
        }
        i += 1;
    }
    proof {
        match best {
            Some(b) => lemma_last_index_of_char_unique(p@, c, b as int),
            None => lemma_last_index_of_char_absent(p@, c),
        }
    }
    best
}

/// The final component of a path: everything after the last `/`
/// (the whole string when it has no `/`).
pub open spec fn name_seq(p: Seq<char>) -> Seq<char> {
    p.subrange(last_index_of_char(p, '/') + 1, p.len() as int)
}

/// The parent of a path: everything before the last `/`. The root `/` has no
/// parent; a path with no `/` has none either; `/x` has parent `/`.
pub open spec fn parent_seq(p: Seq<char>) -> Option<Seq<char>> {
    let i = last_index_of_char(p, '/');
    if i < 0 {
        None
    } else if i == 0 {
        if p.len() == 1 {
            None
        } else {
            Some(seq!['/'])
        }
    } else {
        Some(p.subrange(0, i))
    }
}

/// `dir` and `name` joined with a `/` (none added when `dir` already ends in one).
pub open spec fn join_seq(dir: Seq<char>, name: Seq<char>) -> Seq<char> {
    if dir.len() > 0 && dir[dir.len() - 1] == '/' {
        dir + name
    } else {
        dir + seq!['/'] + name
    }
}

pub fn name_of(p: &str) -> (r: String)
    ensures
        r@ == name_seq(p@),
{
    proof {
        lemma_last_index_of_char(p@, '/');
    }
    let n = p.unicode_len();
    let start: usize = match find_last_char(p, '/') {
        Some(i) => i + 1,
        None => 0,
    };
    let piece = p.substring_char(start, n);
    String::from_str(piece)
}

pub fn parent_of(p: &str) -> (r: Option<String>)
    ensures
        r is Some <==> parent_seq(p@) is Some,
        r is Some ==> Some(r->0@) == parent_seq(p@),
{
    proof {
        lemma_last_index_of_char(p@, '/');
    }
    match find_last_char(p, '/') {
        None => None,
        Some(i) => {
            if i == 0 {
                if p.unicode_len() == 1 {
                    None
                } else {
                    let root = String::from_str("/");
                    proof {
                        reveal_strlit("/");
                        assert(root@ =~= seq!['/']);
                    }
                    Some(root)
                }
            } else {
                Some(String::from_str(p.substring_char(0, i)))
            }
        },
    }
}

pub fn join_path(dir: &str, name: &str) -> (r: String)
    ensures
        r@ == join_seq(dir@, name@),
{
    let n = dir.unicode_len();
    if n > 0 && dir.get_char(n - 1) == '/' {
        let r = String::from_str(dir).concat(name);
        r
    } else {
        let sep = "/";
        proof {
            reveal_strlit("/");
            assert(sep@ =~= seq!['/']);
        }
        let r = String::from_str(dir).concat(sep).concat(name);
        proof {
            assert(r@ =~= dir@ + seq!['/'] + name@);
        }
        r
    }
}

/// Hidden entries are those whose name begins with a dot.
pub open spec fn is_hidden_seq(name: Seq<char>) -> bool {
    name.len() > 0 && name[0] == '.'
}

pub fn is_hidden_name(name: &str) -> (r: bool)
    ensures
        r == is_hidden_seq(name@),
{
    let n = name.unicode_len();
    n > 0 && name.get_char(0) == '.'
}

/// Lexicographic order on names, by character code.
pub open spec fn lex_le(a: Seq<char>, b: Seq<char>) -> bool
    decreases a.len(),
{
    if a.len() == 0 {
        true
    } else if b.len() == 0 {
        false
    } else if (a[0] as u32) < (b[0] as u32) {
        true
    } else if (a[0] as u32) > (b[0] as u32) {
        false
    } else {
        lex_le(a.skip(1), b.skip(1))
    }
}

pub proof fn lemma_lex_le_total(a: Seq<char>, b: Seq<char>)
    ensures
        lex_le(a, b) || lex_le(b, a),
    decreases a.len(),
{
    if a.len() > 0 && b.len() > 0 && (a[0] as u32) == (b[0] as u32) {
        lemma_lex_le_total(a.skip(1), b.skip(1));
        assert(lex_le(a, b) == lex_le(a.skip(1), b.skip(1)));
        assert(lex_le(b, a) == lex_le(b.skip(1), a.skip(1)));
    }
}

pub proof fn lemma_lex_le_trans(a: Seq<char>, b: Seq<char>, c: Seq<char>)
    requires
        lex_le(a, b),
        lex_le(b, c),
    ensures
        lex_le(a, c),
    decreases a.len(),
{
    if a.len() > 0 && b.len() > 0 && c.len() > 0 && (a[0] as u32) == (b[0] as u32) && (b[0] as u32)
        == (c[0] as u32) {
        assert(lex_le(a, b) == lex_le(a.skip(1), b.skip(1)));
        assert(lex_le(b, c) == lex_le(b.skip(1), c.skip(1)));
        lemma_lex_le_trans(a.skip(1), b.skip(1), c.skip(1));
        assert(lex_le(a, c) == lex_le(a.skip(1), c.skip(1)));
    }
}

/// Skipping a shared prefix does not change the order.
proof fn lemma_lex_le_skip(a: Seq<char>, b: Seq<char>, i: int)
    requires
        0 <= i <= a.len(),
        0 <= i <= b.len(),
        forall|j: int| 0 <= j < i ==> a[j] == b[j],
    ensures
        lex_le(a, b) == lex_le(a.skip(i), b.skip(i)),
    decreases i,
{
    if i > 0 {
        assert(a[0] == b[0]);
        assert(forall|j: int| 0 <= j < i - 1 ==> a.skip(1)[j] == b.skip(1)[j]) by {
            assert(forall|j: int|
                0 <= j < i - 1 ==> a.skip(1)[j] == a[j + 1] && b.skip(1)[j] == b[j + 1]);
        }
        lemma_lex_le_skip(a.skip(1), b.skip(1), i - 1);
        assert(a.skip(1).skip(i - 1) =~= a.skip(i));
        assert(b.skip(1).skip(i - 1) =~= b.skip(i));
        assert(lex_le(a, b) == lex_le(a.skip(1), b.skip(1)));
    } else {
        assert(a.skip(0) =~= a);
        assert(b.skip(0) =~= b);
    }
}

/// Executable comparison deciding `lex_le`.
pub fn str_lex_le(a: &str, b: &str) -> (r: bool)
    ensures
        r == lex_le(a@, b@),
{
    let na = a.unicode_len();
    let nb = b.unicode_len();
    let mut i: usize = 0;
    loop
        invariant
            na == a@.len(),
            nb == b@.len(),
            i <= na,
            i <= nb,
            forall|j: int| 0 <= j < i ==> a@[j] == b@[j],
        decreases na - i,
    {
        if i == na {
            proof {
                lemma_lex_le_skip(a@, b@, i as int);
            }
            return true;
        }
        if i == nb {
            proof {
                lemma_lex_le_skip(a@, b@, i as int);
            }
            return false;
        }
        let ca = a.get_char(i);
        let cb = b.get_char(i);
        if (ca as u32) < (cb as u32) {
            proof {
                lemma_lex_le_skip(a@, b@, i as int);
            }
            return true;
        }
        if (ca as u32) > (cb as u32) {
            proof {
                lemma_lex_le_skip(a@, b@, i as int);
            }
            return false;
        }
        assert(ca == cb) by {
            assert(ca as u32 == cb as u32);
        }
        i += 1;
    }
}

/// Character-for-character string equality.
pub fn str_eq(a: &str, b: &str) -> (r: bool)
    ensures
        r == (a@ == b@),
{
    let na = a.unicode_len();
    let nb = b.unicode_len();
    if na != nb {
        return false;
    }
    let mut i: usize = 0;
    while i < na
        invariant
            na == a@.len(),
            na == b@.len(),
            i <= na,
            forall|j: int| 0 <= j < i ==> a@[j] == b@[j],
        decreases na - i,
    {
        if a.get_char(i) != b.get_char(i) {
            return false;
        }
        i += 1;
    }
    proof {
        assert(a@ =~= b@);
    }
    true
}

/// `a` is a prefix of `b`.
pub open spec fn is_prefix(a: Seq<char>, b: Seq<char>) -> bool {
    a.len() <= b.len() && b.subrange(0, a.len() as int) == a
}

pub fn str_starts_with(b: &str, a: &str) -> (r: bool)
    ensures
        r == is_prefix(a@, b@),
{
    let na = a.unicode_len();
    let nb = b.unicode_len();
    if na > nb {
        assert(!is_prefix(a@, b@));
        return false;
    }
    let mut i: usize = 0;
    while i < na
        invariant
            na == a@.len(),
            nb == b@.len(),
            na <= nb,
            i <= na,
            forall|j: int| 0 <= j < i ==> a@[j] == b@[j],
        decreases na - i,
    {
        if a.get_char(i) != b.get_char(i) {
            assert(b@.subrange(0, na as int)[i as int] != a@[i as int]);
            return false;
        }
        i += 1;
    }
    proof {
        assert(b@.subrange(0, na as int) =~= a@);
    }
    true
}

/// `p` lies at or below `base` in the directory hierarchy.
pub open spec fn path_under(p: Seq<char>, base: Seq<char>) -> bool {
    p == base || (is_prefix(base, p) && ((base.len() > 0 && base[base.len() - 1] == '/') || (
    p.len() > base.len() && p[base.len() as int] == '/')))
}

pub fn path_is_under(p: &str, base: &str) -> (r: bool)
    ensures
        r == path_under(p@, base@),
{
    let np = p.unicode_len();
    let nb = base.unicode_len();
    if !str_starts_with(p, base) {
        proof {
            if p@ == base@ {
                assert(p@.subrange(0, base@.len() as int) =~= base@);
            }
        }
        return false;
    }
    if np == nb {
        proof {
            assert(p@.subrange(0, nb as int) =~= p@);
        }
        return true;
    }
    if nb > 0 && base.get_char(nb - 1) == '/' {
        return true;
    }
    p.get_char(nb) == '/'
}

/// The decimal digit character for `n` in `0 ..= 9`.
pub open spec fn dec_digit(n: int) -> char {
    if n == 0 {
        '0'
    } else if n == 1 {
        '1'
    } else if n == 2 {
        '2'
    } else if n == 3 {
        '3'
    } else if n == 4 {
        '4'
    } else if n == 5 {
        '5'
    } else if n == 6 {
        '6'
    } else if n == 7 {
        '7'
    } else if n == 8 {
        '8'
    } else {
        '9'
    }
}

/// Decimal representation of a non-negative number, most significant digit first.
pub open spec fn dec_rep(n: int) -> Seq<char>
    decreases n,
{
    if n < 10 {
        seq![dec_digit(n)]
    } else {
        dec_rep(n / 10).push(dec_digit(n % 10))
    }
}

fn digit_str(n: u64) -> (r: String)
    requires
        n < 10,
    ensures
        r@ =~= seq![dec_digit(n as int)],
{
    let s: &str = if n == 0 {
        "0"
    } else if n == 1 {
        "1"
    } else if n == 2 {
        "2"
    } else if n == 3 {
        "3"
    } else if n == 4 {
        "4"
    } else if n == 5 {
        "5"
    } else if n == 6 {
        "6"
    } else if n == 7 {
        "7"
    } else if n == 8 {
        "8"
    } else {
        "9"
    };
    proof {
        reveal_strlit("0");
        reveal_strlit("1");
        reveal_strlit("2");
        reveal_strlit("3");
        reveal_strlit("4");
        reveal_strlit("5");
        reveal_strlit("6");
        reveal_strlit("7");
        reveal_strlit("8");
        reveal_strlit("9");
    }
    String::from_str(s)
}

pub fn u64_to_string(n: u64) -> (r: String)
    ensures
        r@ == dec_rep(n as int),
    decreases n,
{
    if n < 10 {
        digit_str(n)
    } else {
        let mut s = u64_to_string(n / 10);
        let d = digit_str(n % 10);
        s.append(d.as_str());
        proof {
            assert(s@ =~= dec_rep((n / 10) as int).push(dec_digit((n % 10) as int)));
        }
        s
    }
}

proof fn lemma_dec_digit_code(n: int)
    requires
        0 <= n <= 9,
    ensures
        dec_digit(n) as u32 == 48 + n,
{
}

pub proof fn lemma_dec_rep_len(n: int)
    requires
        n >= 0,
    ensures
        dec_rep(n).len() >= 1,
        n >= 10 ==> dec_rep(n).len() >= 2,
    decreases n,
{
    if n >= 10 {
        lemma_dec_rep_len(n / 10);
    }
}

/// Distinct numbers have distinct decimal representations.
pub proof fn lemma_dec_rep_inj(a: int, b: int)
    requires
        a >= 0,
        b >= 0,
        dec_rep(a) == dec_rep(b),
    ensures
        a == b,
    decreases a,
{
    lemma_dec_rep_len(a);
    lemma_dec_rep_len(b);
    if a < 10 && b < 10 {
        assert(dec_rep(a)[0] == dec_digit(a));
        assert(dec_rep(b)[0] == dec_digit(b));
        lemma_dec_digit_code(a);
        lemma_dec_digit_code(b);
    } else if a < 10 || b < 10 {
        assert(dec_rep(a).len() == dec_rep(b).len());
        assert(false);
    } else {
        assert(dec_rep(a).last() == dec_digit(a % 10));
        assert(dec_rep(b).last() == dec_digit(b % 10));
        lemma_dec_digit_code(a % 10);
        lemma_dec_digit_code(b % 10);
        assert(dec_rep(a).drop_last() =~= dec_rep(a / 10));
        assert(dec_rep(b).drop_last() =~= dec_rep(b / 10));
        lemma_dec_rep_inj(a / 10, b / 10);
    }
}

/// The stem of a file name: everything before the last dot, unless the only
/// dot starts the name (a hidden file such as `.env` is all stem).
pub open spec fn stem_seq(name: Seq<char>) -> Seq<char> {
    let i = last_index_of_char(name, '.');
    if i <= 0 {
        name
    } else {
        name.subrange(0, i)
    }
}

/// The extension of a file name: everything after the last dot, when the last
/// dot neither starts the name nor is absent.
pub open spec fn ext_seq(name: Seq<char>) -> Option<Seq<char>> {
    let i = last_index_of_char(name, '.');
    if i <= 0 {
        None
    } else {
        Some(name.subrange(i + 1, name.len() as int))
    }
}

/// `stem_k` or `stem_k.ext`: the `k`-th alternative for a colliding name.
pub open spec fn numbered_name_seq(name: Seq<char>, k: int) -> Seq<char> {
    match ext_seq(name) {
        None => stem_seq(name) + seq!['_'] + dec_rep(k),
        Some(e) => stem_seq(name) + seq!['_'] + dec_rep(k) + seq!['.'] + e,
    }
}

/// Distinct suffix numbers give distinct candidate names.
pub proof fn lemma_numbered_name_inj(name: Seq<char>, k1: int, k2: int)
    requires
        k1 >= 0,
        k2 >= 0,
        numbered_name_seq(name, k1) == numbered_name_seq(name, k2),
    ensures
        k1 == k2,
{
    lemma_dec_rep_len(k1);
    lemma_dec_rep_len(k2);
    let s = stem_seq(name);
    let r1 = dec_rep(k1);
    let r2 = dec_rep(k2);
    match ext_seq(name) {
        None => {
            let x1 = s + seq!['_'] + r1;
            let x2 = s + seq!['_'] + r2;
            assert(x1.len() == x2.len());
            assert(r1.len() == r2.len());
            assert(r1 =~= x1.subrange(s.len() as int + 1, x1.len() as int));
            assert(r2 =~= x2.subrange(s.len() as int + 1, x2.len() as int));
            lemma_dec_rep_inj(k1, k2);
        },
        Some(e) => {
            let x1 = s + seq!['_'] + r1 + seq!['.'] + e;
            let x2 = s + seq!['_'] + r2 + seq!['.'] + e;
            assert(x1.len() == x2.len());
            assert(r1.len() == r2.len());
            assert(r1 =~= x1.subrange(s.len() as int + 1, s.len() + 1 + r1.len() as int));
            assert(r2 =~= x2.subrange(s.len() as int + 1, s.len() + 1 + r2.len() as int));
            lemma_dec_rep_inj(k1, k2);
        },
    }
}

pub fn numbered_name(name: &str, k: u64) -> (r: String)
    ensures
        r@ == numbered_name_seq(name@, k as int),
{
    proof {
        lemma_last_index_of_char(name@, '.');
    }
    let n = name.unicode_len();
    let underscore = "_";
    let dot = ".";
    proof {
        reveal_strlit("_");
        reveal_strlit(".");
        assert(underscore@ =~= seq!['_']);
        assert(dot@ =~= seq!['.']);
    }
    let num = u64_to_string(k);
    match find_last_char(name, '.') {
        None => {
            let r = String::from_str(name).concat(underscore).concat(num.as_str());
            proof {
                assert(r@ =~= numbered_name_seq(name@, k as int));
            }
            r
        },
        Some(i) => {
            if i == 0 {
                let r = String::from_str(name).concat(underscore).concat(num.as_str());
                proof {
                    assert(r@ =~= numbered_name_seq(name@, k as int));
                }
                r
            } else {
                let stem = name.substring_char(0, i);
                let ext = name.substring_char(i + 1, n);
                let r = String::from_str(stem).concat(underscore).concat(num.as_str()).concat(
                    dot,
                ).concat(ext);
                proof {
                    assert(r@ =~= numbered_name_seq(name@, k as int));
                }
                r
            }
        },
    }
}

} // verus!
