//! Searching and trimming within a sequence of characters.
use vstd::prelude::*;

verus! {

/// Position of the first `c` in `s`.
pub open spec fn index_of(s: Seq<char>, c: char) -> Option<nat>
    decreases s.len(),
{
    if s.len() == 0 {
        None
    } else if s[0] == c {
        Some(0)
    } else {
        match index_of(s.drop_first(), c) {
            Some(i) => Some(i + 1),
            None => None,
        }
    }
}

/// Position of the first occurrence of `m` in `s`.
pub open spec fn index_of_text(s: Seq<char>, m: Seq<char>) -> Option<nat>
    decreases s.len(),
    via index_of_text_decreases
{
    if s.len() < m.len() {
        None
    } else if s.subrange(0, m.len() as int) == m {
        Some(0)
    } else {
        match index_of_text(s.drop_first(), m) {
            Some(i) => Some(i + 1),
            None => None,
        }
    }
}

#[via_fn]
proof fn index_of_text_decreases(s: Seq<char>, m: Seq<char>) {
    if m.len() == 0 {
        assert(s.subrange(0, 0) =~= m);
    }
}

/// The first position in `from..to` that holds `c`.
#[verifier::opaque]
pub open spec fn find_in(s: Seq<char>, from: int, to: int, c: char) -> Option<int> {
    match index_of(s.subrange(from, to), c) {
        Some(i) => Some(from + i),
        None => None,
    }
}

/// The first position in `from..to` that does not hold `c`, or `to`.
#[verifier::opaque]
pub open spec fn skip_in(s: Seq<char>, from: int, to: int, c: char) -> int {
    if exists|i: int| from <= i < to && s[i] != c {
        choose|i: int| from <= i < to && s[i] != c && forall|j: int| from <= j < i ==> s[j] == c
    } else {
        to
    }
}

/// Unicode's White_Space property, which `char::is_whitespace` tests.
pub open spec fn is_space(c: char) -> bool {
    let u = c as u32;
    (0x9 <= u && u <= 0xd) || u == 0x20 || u == 0x85 || u == 0xa0 || u == 0x1680 || (0x2000 <= u
        && u <= 0x200a) || u == 0x2028 || u == 0x2029 || u == 0x202f || u == 0x205f || u == 0x3000
}

/// Whether `from..to` holds a character that is not white space.
pub open spec fn has_text(s: Seq<char>, from: int, to: int) -> bool {
    exists|i: int| from <= i < to && !is_space(s[i])
}

/// Start of `from..to` once leading white space is removed.
#[verifier::opaque]
pub open spec fn trim_start(s: Seq<char>, from: int, to: int) -> int {
    if has_text(s, from, to) {
        choose|i: int| from <= i < to && !is_space(s[i]) && forall|j: int| from <= j < i ==> is_space(s[j])
    } else {
        to
    }
}

/// End of `from..to` once trailing white space is removed.
#[verifier::opaque]
pub open spec fn trim_end(s: Seq<char>, from: int, to: int) -> int {
    if has_text(s, from, to) {
        1 + choose|i: int| from <= i < to && !is_space(s[i]) && forall|j: int| i < j < to ==> is_space(s[j])
    } else {
        to
    }
}

/// The text of `from..to` without white space at either end.
pub open spec fn trimmed(s: Seq<char>, from: int, to: int) -> Seq<char> {
    s.subrange(trim_start(s, from, to), trim_end(s, from, to))
}

/// What `index_of` finds: the first `c`, or none at all.
pub proof fn lemma_index_of(s: Seq<char>, c: char)
    ensures
        index_of(s, c) matches Some(i) ==> i < s.len() && s[i as int] == c && forall|j: int|
            0 <= j < i ==> s[j] != c,
        index_of(s, c) is None ==> forall|j: int| 0 <= j < s.len() ==> s[j] != c,
    decreases s.len(),
{
    if s.len() > 0 && s[0] != c {
        let t = s.drop_first();
        lemma_index_of(t, c);
        assert forall|j: int| 1 <= j < s.len() implies s[j] == t[j - 1] by {}
    }
}

/// What a search finds: the first position in range that holds `c`.
pub proof fn lemma_find_in(s: Seq<char>, from: int, to: int, c: char)
    requires
        0 <= from <= to <= s.len(),
    ensures
        find_in(s, from, to, c) matches Some(i) ==> from <= i < to && s[i] == c,
        find_in(s, from, to, c) is None ==> forall|j: int| from <= j < to ==> s[j] != c,
{
    reveal(find_in);
    let t = s.subrange(from, to);
    lemma_index_of(t, c);
    assert forall|j: int| from <= j < to implies s[j] == t[j - from] by {}
}

/// Skipping a run stays within range.
pub proof fn lemma_skip_in(s: Seq<char>, from: int, to: int, c: char)
    requires
        from <= to,
    ensures
        from <= skip_in(s, from, to, c) <= to,
{
    reveal(skip_in);
    if exists|i: int| from <= i < to && s[i] != c {
        let i = choose|i: int| from <= i < to && s[i] != c;
        if !exists|k: int| from <= k < to && s[k] != c && forall|j: int| from <= j < k ==> s[j] == c {
            lemma_first_other_exists(s, from, to, c, i);
        }
    }
}

proof fn lemma_first_other_exists(s: Seq<char>, from: int, to: int, c: char, i: int)
    requires
        from <= i < to,
        s[i] != c,
    ensures
        exists|k: int| from <= k < to && s[k] != c && forall|j: int| from <= j < k ==> s[j] == c,
    decreases i - from,
{
    if exists|j: int| from <= j < i && s[j] != c {
        let j = choose|j: int| from <= j < i && s[j] != c;
        lemma_first_other_exists(s, from, to, c, j);
    } else {
        assert(forall|j: int| from <= j < i ==> s[j] == c);
    }
}

/// The texts of a list of strings.
pub open spec fn texts(v: Seq<String>) -> Seq<Seq<char>> {
    v.map_values(|s: String| s@)
}

/// `n` spaces.
pub open spec fn spaces(n: nat) -> Seq<char> {
    Seq::new(n, |i: int| ' ')
}

/// Whether `m` occurs in `s` as a run of consecutive characters.
pub open spec fn occurs(s: Seq<char>, m: Seq<char>) -> bool {
    index_of_text(s, m) is Some
}

/// Appends `n` spaces to `out`.
pub fn push_spaces(out: &mut String, n: usize)
    ensures
        final(out)@ == old(out)@ + spaces(n as nat),
{
    let ghost start = out@;
    let mut i: usize = 0;
    proof {
        assert(out@ =~= start + spaces(0));
    }
    while i < n
        invariant
            i <= n,
            out@ == start + spaces(i as nat),
        decreases n - i,
    {
        out.append(" ");
        proof {
            reveal_strlit(" ");
            assert(start + spaces(i as nat) + " "@ =~= start + spaces((i + 1) as nat));
        }
        i = i + 1;
    }
}

/// Whether `m` occurs in `s`.
pub fn contains_text(s: &Vec<char>, m: &Vec<char>) -> (r: bool)
    ensures
        r == occurs(s@, m@),
{
    proof {
        assert(s@.subrange(0, s@.len() as int) =~= s@);
    }
    index_of_text_from(s, 0, m).is_some()
}

pub fn is_whitespace(c: char) -> (r: bool)
    ensures
        r == is_space(c),
{
    let u = c as u32;
    (0x9 <= u && u <= 0xd) || u == 0x20 || u == 0x85 || u == 0xa0 || u == 0x1680 || (0x2000 <= u
        && u <= 0x200a) || u == 0x2028 || u == 0x2029 || u == 0x202f || u == 0x205f || u == 0x3000
}

/// The characters of `s`.
pub fn chars_of(s: &str) -> (v: Vec<char>)
    ensures
        v@ == s@,
{
    broadcast use vstd::string::group_string_axioms;

    let mut v: Vec<char> = Vec::new();
    let mut it = s.chars();
    loop
        invariant
            v@ + vstd::std_specs::iter::IteratorSpec::remaining(&it) == s@,
            vstd::std_specs::iter::IteratorSpec::obeys_prophetic_iter_laws(&it),
            vstd::std_specs::iter::IteratorSpec::decrease(&it) is Some,
        ensures
            v@ == s@,
        decreases vstd::std_specs::iter::IteratorSpec::decrease(&it)->0,
    {
        match it.next() {
            Some(c) => {
                v.push(c);
            },
            None => {
                assert(v@ + vstd::std_specs::iter::IteratorSpec::remaining(&it) =~= v@);
                break ;
            },
        }
    }
    v
}

/// The first position in `from..to` that holds `c`.
pub fn find_char(s: &Vec<char>, from: usize, to: usize, c: char) -> (r: Option<usize>)
    requires
        from <= to <= s.len(),
    ensures
        r matches Some(i) ==> from <= i < to && s@[i as int] == c,
        r matches Some(i) ==> find_in(s@, from as int, to as int, c) == Some(i as int),
        r is None ==> find_in(s@, from as int, to as int, c) is None,
{
    proof {
        reveal(find_in);
    }
    let mut i = from;
    while i < to && s[i] != c
        invariant
            from <= i <= to <= s.len(),
            index_of(s@.subrange(from as int, to as int), c) == match index_of(
                s@.subrange(i as int, to as int),
                c,
            ) {
                Some(k) => Some((k + (i - from)) as nat),
                None => None::<nat>,
            },
        decreases to - i,
    {
        proof {
            let t = s@.subrange(i as int, to as int);
            assert(t.drop_first() =~= s@.subrange(i + 1, to as int));
        }
        i = i + 1;
    }
    if i == to {
        proof {
            assert(s@.subrange(i as int, to as int).len() == 0);
        }
        None
    } else {
        proof {
            assert(s@.subrange(i as int, to as int)[0] == c);
        }
        Some(i)
    }
}

/// The first occurrence of `m` in `s` from `from`, counted from `from`.
pub fn index_of_text_from(s: &Vec<char>, from: usize, m: &Vec<char>) -> (r: Option<usize>)
    requires
        from <= s.len(),
    ensures
        r matches Some(i) ==> index_of_text(s@.subrange(from as int, s.len() as int), m@) == Some(
            i as nat,
        ) && from + i + m.len() <= s.len(),
        r is None ==> index_of_text(s@.subrange(from as int, s.len() as int), m@) is None,
{
    let n = s.len();
    let mut j = from;
    while m.len() <= n - j
        invariant
            n == s.len(),
            from <= j <= n,
            index_of_text(s@.subrange(from as int, n as int), m@) == match index_of_text(
                s@.subrange(j as int, n as int),
                m@,
            ) {
                Some(k) => Some((k + (j - from)) as nat),
                None => None::<nat>,
            },
        decreases n - j,
    {
        let t = Ghost(s@.subrange(j as int, n as int));
        let mut k: usize = 0;
        while k < m.len() && s[j + k] == m[k]
            invariant
                j + m.len() <= n,
                t@ == s@.subrange(j as int, n as int),
                n == s.len(),
                k <= m.len(),
                forall|l: int| 0 <= l < k ==> s@[j + l] == m@[l],
            decreases m.len() - k,
        {
            k = k + 1;
        }
        if k == m.len() {
            proof {
                assert(t@.subrange(0, m.len() as int) =~= m@);
            }
            return Some(j - from);
        }
        proof {
            assert(t@.subrange(0, m.len() as int)[k as int] != m@[k as int]);
            assert(t@.drop_first() =~= s@.subrange(j + 1, n as int));
        }
        j = j + 1;
    }
    proof {
        assert(s@.subrange(j as int, n as int).len() < m.len());
    }
    None
}

/// The first position in `from..to` that does not hold `c`, or `to`.
pub fn skip_char(s: &Vec<char>, from: usize, to: usize, c: char) -> (r: usize)
    requires
        from <= to <= s.len(),
    ensures
        r == skip_in(s@, from as int, to as int, c),
        from <= r <= to,
        forall|j: int| from <= j < r ==> s@[j] == c,
        r < to ==> s@[r as int] != c,
{
    let mut i = from;
    while i < to
        invariant
            from <= i <= to <= s.len(),
            forall|j: int| from <= j < i ==> s@[j] == c,
        decreases to - i,
    {
        if s[i] != c {
            proof {
                reveal(skip_in);
                let k = choose|k: int|
                    from <= k < to && s@[k] != c && forall|j: int| from <= j < k ==> s@[j] == c;
                assert(k == i);
            }
            return i;
        }
        i = i + 1;
    }
    proof {
        reveal(skip_in);
    }
    to
}

/// The bounds of `from..to` without white space at either end.
pub fn trim_bounds(s: &Vec<char>, from: usize, to: usize) -> (r: (usize, usize))
    requires
        from <= to <= s.len(),
    ensures
        r.0 == trim_start(s@, from as int, to as int),
        r.1 == trim_end(s@, from as int, to as int),
        from <= r.0 <= r.1 <= to,
        r.0 < r.1 <==> has_text(s@, from as int, to as int),
{
    let mut a = from;
    while a < to && is_whitespace(s[a])
        invariant
            from <= a <= to <= s.len(),
            forall|j: int| from <= j < a ==> is_space(s@[j]),
        decreases to - a,
    {
        a = a + 1;
    }
    if a == to {
        proof {
            reveal(trim_start);
            reveal(trim_end);
        }
        return (to, to);
    }
    proof {
        reveal(trim_start);
        reveal(trim_end);
        let k = choose|k: int|
            from <= k < to && !is_space(s@[k]) && forall|j: int| from <= j < k ==> is_space(s@[j]);
        assert(k == a);
    }
    let mut b = to;
    while b > a && is_whitespace(s[b - 1])
        invariant
            a < to,
            a <= b <= to <= s.len(),
            !is_space(s@[a as int]),
            forall|j: int| b <= j < to ==> is_space(s@[j]),
        decreases b,
    {
        b = b - 1;
    }
    proof {
        assert(b > a);
        assert(has_text(s@, from as int, to as int)) by {
            assert(!is_space(s@[a as int]));
        }
        let k = choose|k: int|
            from <= k < to && !is_space(s@[k]) && forall|j: int| k < j < to ==> is_space(s@[j]);
        assert(k == b - 1);
    }
    (a, b)
}

} // verus!
