//! Path strings: separators, joining, leaf names and comparisons.

use vstd::prelude::*;

verus! {

/// `String::push` of the standard library: the character is appended at the
/// end and nothing else changes.
pub assume_specification[ String::push ](s: &mut String, ch: char)
    ensures
        final(s)@ == old(s)@.push(ch),
;

/// Either kind of separator.
pub open spec fn is_separator(c: char) -> bool {
    c == '/' || c == '\\'
}

/// A path with every backslash turned into a forward slash.
pub open spec fn normalized(s: Seq<char>) -> Seq<char> {
    Seq::new(s.len(), |i: int| if s[i] == '\\' { '/' } else { s[i] })
}

/// Rewrites every backslash of `path` to a forward slash.
pub fn normalize_separators(path: &str) -> (out: String)
    ensures
        out@ == normalized(path@),
{
    let n: usize = path.unicode_len();
    let mut out = String::new();
    let mut i: usize = 0;
    while i < n
        invariant
            n == path@.len(),
            i <= n,
            out@ == normalized(path@).subrange(0, i as int),
        decreases n - i,
    {
        let c: char = path.get_char(i);
        let d: char = if c == '\\' { '/' } else { c };
        out.push(d);
        proof {
            assert(out@ =~= normalized(path@).subrange(0, i + 1));
        }
        i += 1;
    }
    proof {
        assert(out@ =~= normalized(path@));
    }
    out
}

/// A path with every forward slash turned into a backslash.
pub open spec fn backslashed(s: Seq<char>) -> Seq<char> {
    Seq::new(s.len(), |i: int| if s[i] == '/' { '\\' } else { s[i] })
}

/// Rewrites every forward slash of `path` to a backslash.
pub fn to_backslashes(path: &str) -> (out: String)
    ensures
        out@ == backslashed(path@),
{
    let n: usize = path.unicode_len();
    let mut out = String::new();
    let mut i: usize = 0;
    while i < n
        invariant
            n == path@.len(),
            i <= n,
            out@ == backslashed(path@).subrange(0, i as int),
        decreases n - i,
    {
        let c: char = path.get_char(i);
        let d: char = if c == '/' { '\\' } else { c };
        out.push(d);
        proof {
            assert(out@ =~= backslashed(path@).subrange(0, i + 1));
        }
        i += 1;
    }
    proof {
        assert(out@ =~= backslashed(path@));
    }
    out
}

/// `child` placed below `base`: exactly one separator stands between them
/// unless `base` is empty or already ends in one.
pub open spec fn joined(base: Seq<char>, child: Seq<char>) -> Seq<char> {
    if base.len() == 0 {
        child
    } else if is_separator(base.last()) {
        base + child
    } else {
        base.push('/') + child
    }
}

/// Joins `child` onto `base`.
pub fn join(base: &str, child: &str) -> (out: String)
    ensures
        out@ == joined(base@, child@),
{
    let n: usize = base.unicode_len();
    let mut out = String::new();
    out.append(base);
    if n > 0 {
        let c: char = base.get_char(n - 1);
        if !(c == '/' || c == '\\') {
            out.push('/');
        }
    }
    out.append(child);
    proof {
        assert(out@ =~= joined(base@, child@));
    }
    out
}

/// The code of `c` with the ASCII capitals mapped onto the small letters.
pub open spec fn folded(c: char) -> int {
    if 'A' <= c && c <= 'Z' {
        c as int + 32
    } else {
        c as int
    }
}

/// Two paths that differ at most in the case of ASCII letters.
pub open spec fn same_ignoring_case(a: Seq<char>, b: Seq<char>) -> bool {
    a.len() == b.len() && forall|i: int| 0 <= i < a.len() ==> folded(#[trigger] a[i]) == folded(b[i])
}

fn fold(c: char) -> (code: u32)
    ensures
        code == folded(c),
{
    if 'A' <= c && c <= 'Z' {
        c as u32 + 32
    } else {
        c as u32
    }
}

/// Compares two paths without regard to the case of ASCII letters.
pub fn eq_ignore_case(a: &str, b: &str) -> (same: bool)
    ensures
        same == same_ignoring_case(a@, b@),
{
    let n: usize = a.unicode_len();
    if b.unicode_len() != n {
        return false;
    }
    let mut i: usize = 0;
    while i < n
        invariant
            n == a@.len(),
            n == b@.len(),
            i <= n,
            forall|j: int| 0 <= j < i ==> folded(#[trigger] a@[j]) == folded(b@[j]),
        decreases n - i,
    {
        if fold(a.get_char(i)) != fold(b.get_char(i)) {
            return false;
        }
        i += 1;
    }
    true
}

/// Where the last component of `s` begins: behind its last separator, or at 0
/// where it has none.
pub open spec fn leaf_start(s: Seq<char>) -> int
    decreases s.len(),
{
    if s.len() == 0 {
        0
    } else if is_separator(s.last()) {
        s.len() as int
    } else {
        leaf_start(s.drop_last())
    }
}

/// The last component of a path: what follows its last separator.
pub open spec fn leaf_of(s: Seq<char>) -> Seq<char> {
    s.subrange(leaf_start(s), s.len() as int)
}

/// What stands before the last separator of a path; empty where it has none.
pub open spec fn parent_of(s: Seq<char>) -> Seq<char> {
    if leaf_start(s) == 0 {
        Seq::empty()
    } else {
        s.subrange(0, leaf_start(s) - 1)
    }
}

/// `leaf_start` lies within the path, a separator stands before it unless it
/// is 0, and none follows it.
pub proof fn lemma_leaf_start(s: Seq<char>)
    ensures
        0 <= leaf_start(s) <= s.len(),
        leaf_start(s) > 0 ==> is_separator(s[leaf_start(s) - 1]),
        forall|i: int| leaf_start(s) <= i < s.len() ==> !is_separator(#[trigger] s[i]),
    decreases s.len(),
{
    if s.len() > 0 && !is_separator(s.last()) {
        let t = s.drop_last();
        lemma_leaf_start(t);
        assert forall|i: int| leaf_start(s) <= i < s.len() implies !is_separator(
            #[trigger] s[i],
        ) by {
            if i < t.len() {
                assert(s[i] == t[i]);
            }
        }
    }
}

fn find_leaf_start(path: &str) -> (k: usize)
    ensures
        k == leaf_start(path@),
        k <= path@.len(),
{
    let n: usize = path.unicode_len();
    let mut k: usize = n;
    proof {
        assert(path@.subrange(0, n as int) =~= path@);
    }
    while k > 0
        invariant
            n == path@.len(),
            k <= n,
            leaf_start(path@) == leaf_start(path@.subrange(0, k as int)),
        decreases k,
    {
        let c: char = path.get_char(k - 1);
        if c == '/' || c == '\\' {
            proof {
                assert(path@.subrange(0, k as int).last() == c);
            }
            return k;
        }
        proof {
            assert(path@.subrange(0, k as int).last() == c);
            assert(path@.subrange(0, k as int).drop_last() =~= path@.subrange(0, k - 1));
        }
        k -= 1;
    }
    k
}

/// The last component of `path`: it holds no separator, and what stands before
/// it in `path` is empty or ends in one.
pub fn leaf_name(path: &str) -> (out: String)
    ensures
        out@ == leaf_of(path@),
        forall|i: int| 0 <= i < out@.len() ==> !is_separator(#[trigger] out@[i]),
        out@.len() < path@.len() ==> is_separator(path@[path@.len() - out@.len() - 1]),
{
    let n: usize = path.unicode_len();
    let k: usize = find_leaf_start(path);
    proof {
        lemma_leaf_start(path@);
        assert forall|i: int| 0 <= i < leaf_of(path@).len() implies !is_separator(
            #[trigger] leaf_of(path@)[i],
        ) by {
            assert(leaf_of(path@)[i] == path@[k + i]);
        }
    }
    String::from_str(path.substring_char(k, n))
}

/// The directory that holds `path`: what stands before its last separator.
pub fn parent_dir(path: &str) -> (out: String)
    ensures
        out@ == parent_of(path@),
{
    let k: usize = find_leaf_start(path);
    if k == 0 {
        String::new()
    } else {
        String::from_str(path.substring_char(0, k - 1))
    }
}

/// The character of one decimal digit.
pub open spec fn digit_char(d: nat) -> char {
    if d == 0 {
        '0'
    } else if d == 1 {
        '1'
    } else if d == 2 {
        '2'
    } else if d == 3 {
        '3'
    } else if d == 4 {
        '4'
    } else if d == 5 {
        '5'
    } else if d == 6 {
        '6'
    } else if d == 7 {
        '7'
    } else if d == 8 {
        '8'
    } else {
        '9'
    }
}

/// A number in decimal notation, without leading zeros.
pub open spec fn decimal(n: nat) -> Seq<char>
    decreases n,
{
    if n < 10 {
        seq![digit_char(n)]
    } else {
        decimal(n / 10).push(digit_char(n % 10))
    }
}

/// A sequence read backwards.
pub open spec fn reversed(s: Seq<char>) -> Seq<char> {
    Seq::new(s.len(), |i: int| s[s.len() - 1 - i])
}

fn digit(d: u64) -> (c: char)
    requires
        d < 10,
    ensures
        c == digit_char(d as nat),
{
    if d == 0 {
        '0'
    } else if d == 1 {
        '1'
    } else if d == 2 {
        '2'
    } else if d == 3 {
        '3'
    } else if d == 4 {
        '4'
    } else if d == 5 {
        '5'
    } else if d == 6 {
        '6'
    } else if d == 7 {
        '7'
    } else if d == 8 {
        '8'
    } else {
        '9'
    }
}

/// Writes `n` in decimal notation.
pub fn decimal_string(n: u64) -> (out: String)
    ensures
        out@ == decimal(n as nat),
{
    let mut low: Vec<char> = Vec::new();
    let mut m: u64 = n;
    while m >= 10
        invariant
            decimal(n as nat) == decimal(m as nat) + reversed(low@),
        decreases m,
    {
        let c: char = digit(m % 10);
        proof {
            assert(reversed(low@.push(c)) =~= seq![c] + reversed(low@));
            assert(decimal((m / 10) as nat).push(c) + reversed(low@) =~= decimal((m / 10) as nat)
                + (seq![c] + reversed(low@)));
        }
        low.push(c);
        m = m / 10;
    }
    let mut out = String::new();
    out.push(digit(m));
    let mut i: usize = low.len();
    proof {
        assert(out@ =~= decimal(m as nat));
        assert(low@.subrange(0, i as int) =~= low@);
    }
    while i > 0
        invariant
            i <= low.len(),
            decimal(n as nat) == out@ + reversed(low@.subrange(0, i as int)),
        decreases i,
    {
        i -= 1;
        let c: char = low[i];
        proof {
            let before = low@.subrange(0, i + 1);
            let after = low@.subrange(0, i as int);
            assert(reversed(before) =~= seq![c] + reversed(after));
            assert(out@ + (seq![c] + reversed(after)) =~= out@.push(c) + reversed(after));
        }
        out.push(c);
    }
    proof {
        assert(reversed(low@.subrange(0, 0)) =~= Seq::<char>::empty());
        assert(out@ + Seq::<char>::empty() =~= out@);
    }
    out
}

/// The texts of a list of strings.
pub open spec fn texts(v: Seq<String>) -> Seq<Seq<char>> {
    Seq::new(v.len(), |i: int| v[i]@)
}

/// Whether flag `i` is there and set; a flag that is missing counts as unset.
pub open spec fn present_at(flags: Seq<bool>, i: int) -> bool {
    0 <= i < flags.len() && flags[i]
}

/// Reads flag `i`, taking a missing one as unset.
pub fn flag_at(flags: &Vec<bool>, i: usize) -> (set: bool)
    ensures
        set == present_at(flags@, i as int),
{
    i < flags.len() && flags[i]
}

/// The characters of `s` as a vector.
pub fn to_chars(s: &str) -> (out: Vec<char>)
    ensures
        out@ == s@,
{
    let n: usize = s.unicode_len();
    let mut out: Vec<char> = Vec::new();
    let mut i: usize = 0;
    while i < n
        invariant
            n == s@.len(),
            i <= n,
            out@ == s@.subrange(0, i as int),
        decreases n - i,
    {
        out.push(s.get_char(i));
        proof {
            assert(out@ =~= s@.subrange(0, i + 1));
        }
        i += 1;
    }
    proof {
        assert(out@ =~= s@);
    }
    out
}

/// The normalised paths that a list names.
pub open spec fn name_set(list: Seq<String>) -> Set<Seq<char>> {
    Set::new(|p: Seq<char>| exists|k: int| 0 <= k < list.len() && normalized(#[trigger] list[k]@) == p)
}

/// Every path of a list with its separators normalised.
pub fn normalize_all(list: &Vec<String>) -> (out: Vec<String>)
    ensures
        out@.len() == list@.len(),
        forall|k: int| 0 <= k < out@.len() ==> (#[trigger] out@[k])@ == normalized(list@[k]@),
{
    let mut out: Vec<String> = Vec::new();
    let mut k: usize = 0;
    while k < list.len()
        invariant
            k <= list.len(),
            out@.len() == k,
            forall|j: int| 0 <= j < k ==> (#[trigger] out@[j])@ == normalized(list@[j]@),
        decreases list.len() - k,
    {
        out.push(normalize_separators(list[k].as_str()));
        k += 1;
    }
    out
}

/// Whether `list` holds the string `p`.
pub fn has_name(list: &Vec<String>, p: &String) -> (found: bool)
    ensures
        found == exists|k: int| 0 <= k < list@.len() && (#[trigger] list@[k])@ == p@,
{
    let mut k: usize = 0;
    while k < list.len()
        invariant
            k <= list.len(),
            forall|j: int| 0 <= j < k ==> (#[trigger] list@[j])@ != p@,
        decreases list.len() - k,
    {
        if list[k] == *p {
            return true;
        }
        k += 1;
    }
    false
}

} // verus!
