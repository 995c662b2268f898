//! Character-level helpers for the text that card lists are written in.

use vstd::prelude::*;

verus! {

/// Whether `c` is white space in the sense of Unicode's `White_Space` property.
pub open spec fn is_space(c: char) -> bool {
    let u = c as u32;
    ||| 0x09 <= u <= 0x0D
    ||| u == 0x20
    ||| u == 0x85
    ||| u == 0xA0
    ||| u == 0x1680
    ||| 0x2000 <= u <= 0x200A
    ||| u == 0x2028
    ||| u == 0x2029
    ||| u == 0x202F
    ||| u == 0x205F
    ||| u == 0x3000
}

/// How many characters at the front of `s` satisfy `keep`.
pub open spec fn prefix_len(s: Seq<char>, keep: spec_fn(char) -> bool) -> nat
    decreases s.len(),
{
    if s.len() > 0 && keep(s[0]) {
        1 + prefix_len(s.drop_first(), keep)
    } else {
        0
    }
}

/// How many characters at the back of `s` satisfy `keep`.
pub open spec fn suffix_len(s: Seq<char>, keep: spec_fn(char) -> bool) -> nat
    decreases s.len(),
{
    if s.len() > 0 && keep(s.last()) {
        1 + suffix_len(s.drop_last(), keep)
    } else {
        0
    }
}

/// `s` without the white space at its front.
pub open spec fn trimmed_start(s: Seq<char>) -> Seq<char> {
    s.skip(prefix_len(s, |c: char| is_space(c)) as int)
}

/// `s` without the white space at its back.
pub open spec fn trimmed_end(s: Seq<char>) -> Seq<char> {
    s.take(s.len() - suffix_len(s, |c: char| is_space(c)))
}

/// `s` without the white space at either end.
pub open spec fn trimmed(s: Seq<char>) -> Seq<char> {
    trimmed_end(trimmed_start(s))
}

/// `prefix_len` is the one index that ends a run of kept characters.
pub proof fn lemma_prefix_len(s: Seq<char>, keep: spec_fn(char) -> bool, k: int)
    requires
        0 <= k <= s.len(),
        forall|i: int| 0 <= i < k ==> keep(#[trigger] s[i]),
        k < s.len() ==> !keep(s[k]),
    ensures
        prefix_len(s, keep) == k,
    decreases k,
{
    if k > 0 {
        let t = s.drop_first();
        assert forall|i: int| 0 <= i < k - 1 implies keep(#[trigger] t[i]) by {
            assert(t[i] == s[i + 1]);
        }
        lemma_prefix_len(t, keep, k - 1);
    }
}

/// `suffix_len` is the one length that begins a final run of kept characters.
pub proof fn lemma_suffix_len(s: Seq<char>, keep: spec_fn(char) -> bool, k: int)
    requires
        0 <= k <= s.len(),
        forall|i: int| s.len() - k <= i < s.len() ==> keep(#[trigger] s[i]),
        k < s.len() ==> !keep(s[s.len() - k - 1]),
    ensures
        suffix_len(s, keep) == k,
    decreases k,
{
    if k > 0 {
        let t = s.drop_last();
        assert forall|i: int| t.len() - (k - 1) <= i < t.len() implies keep(#[trigger] t[i]) by {
            assert(t[i] == s[i]);
        }
        lemma_suffix_len(t, keep, k - 1);
    }
}

/// What `prefix_len` says: the characters before it are kept, the one at it
/// is not.
pub proof fn lemma_prefix_len_holds(s: Seq<char>, keep: spec_fn(char) -> bool)
    ensures
        prefix_len(s, keep) <= s.len(),
        forall|i: int| 0 <= i < prefix_len(s, keep) ==> keep(#[trigger] s[i]),
        prefix_len(s, keep) < s.len() ==> !keep(s[prefix_len(s, keep) as int]),
    decreases s.len(),
{
    if s.len() > 0 && keep(s[0]) {
        let t = s.drop_first();
        lemma_prefix_len_holds(t, keep);
        assert forall|i: int| 0 <= i < prefix_len(s, keep) implies keep(#[trigger] s[i]) by {
            if i > 0 {
                assert(t[i - 1] == s[i]);
            }
        }
        if prefix_len(s, keep) < s.len() {
            assert(t[prefix_len(t, keep) as int] == s[prefix_len(s, keep) as int]);
        }
    }
}

/// No more characters are counted at the back than there are.
pub proof fn lemma_suffix_len_bound(s: Seq<char>, keep: spec_fn(char) -> bool)
    ensures
        suffix_len(s, keep) <= s.len(),
    decreases s.len(),
{
    if s.len() > 0 && keep(s.last()) {
        lemma_suffix_len_bound(s.drop_last(), keep);
    }
}

/// What is left of a text once it is trimmed is a run of its characters.
pub proof fn lemma_trimmed_is_part(s: Seq<char>)
    ensures
        exists|a: int, b: int| 0 <= a <= b <= s.len() && #[trigger] s.subrange(a, b) == trimmed(s),
{
    let space = |c: char| is_space(c);
    lemma_prefix_len_holds(s, space);
    let a = prefix_len(s, space) as int;
    let u = s.skip(a);
    lemma_suffix_len_bound(u, space);
    let b = s.len() - suffix_len(u, space);
    assert(s.subrange(a, b) =~= trimmed(s));
}

/// Where the white space at the front of `s` ends, `trimmed_start` begins.
pub proof fn lemma_trimmed_start(s: Seq<char>, a: int)
    requires
        0 <= a <= s.len(),
        forall|i: int| 0 <= i < a ==> is_space(#[trigger] s[i]),
        a < s.len() ==> !is_space(s[a]),
    ensures
        trimmed_start(s) == s.skip(a),
{
    lemma_prefix_len(s, |c: char| is_space(c), a);
}

/// The characters of `s`, in order.
pub fn chars_of(s: &str) -> (out: Vec<char>)
    ensures
        out@ == s@,
{
    broadcast use vstd::string::group_string_axioms;

    let mut out: Vec<char> = Vec::new();
    for c in it: s.chars()
        invariant
            it.seq() == s@,
            out.len() == it.index(),
            forall|i: int| 0 <= i < out.len() ==> out@[i] == it.seq()[i],
    {
        out.push(c);
    }
    assert(out@ =~= s@);
    out
}

/// Whether two strings hold the same characters.
pub fn same_text(a: &str, b: &str) -> (same: bool)
    ensures
        same == (a@ == b@),
{
    let x = chars_of(a);
    let y = chars_of(b);
    if x.len() != y.len() {
        return false;
    }
    let mut i: usize = 0;
    while i < x.len()
        invariant
            i <= x.len(),
            x.len() == y.len(),
            x@ == a@,
            y@ == b@,
            forall|j: int| 0 <= j < i ==> x@[j] == y@[j],
        decreases x.len() - i,
    {
        if x[i] != y[i] {
            return false;
        }
        i += 1;
    }
    assert(x@ =~= y@);
    true
}

/// Unicode white space, as `char::is_whitespace` decides it.
pub fn is_whitespace(c: char) -> (r: bool)
    ensures
        r == is_space(c),
{
    let u: u32 = c as u32;
    (0x09 <= u && u <= 0x0D) || u == 0x20 || u == 0x85 || u == 0xA0 || u == 0x1680 || (0x2000
        <= u && u <= 0x200A) || u == 0x2028 || u == 0x2029 || u == 0x202F || u == 0x205F || u
        == 0x3000
}

/// The index of the first `needle` in `chars`, or their length where there is none.
pub fn find_char(chars: &Vec<char>, needle: char) -> (at: usize)
    ensures
        at == prefix_len(chars@, |c: char| c != needle),
        at <= chars.len(),
{
    let mut i: usize = 0;
    while i < chars.len() && chars[i] != needle
        invariant
            i <= chars.len(),
            forall|j: int| 0 <= j < i ==> chars@[j] != needle,
        decreases chars.len() - i,
    {
        i += 1;
    }
    proof {
        lemma_prefix_len(chars@, |c: char| c != needle, i as int);
    }
    i
}

/// The index of the first white space in `chars`, or their length where there is none.
pub fn find_whitespace(chars: &Vec<char>) -> (at: usize)
    ensures
        at == prefix_len(chars@, |c: char| !is_space(c)),
        at <= chars.len(),
{
    let mut i: usize = 0;
    while i < chars.len() && !is_whitespace(chars[i])
        invariant
            i <= chars.len(),
            forall|j: int| 0 <= j < i ==> !is_space(chars@[j]),
        decreases chars.len() - i,
    {
        i += 1;
    }
    proof {
        lemma_prefix_len(chars@, |c: char| !is_space(c), i as int);
    }
    i
}

/// The bounds of `chars[from..to]` once the white space at both ends is left out.
pub fn trim_bounds(chars: &Vec<char>, from: usize, to: usize) -> (at: (usize, usize))
    requires
        from <= to <= chars.len(),
    ensures
        from <= at.0 <= at.1 <= to,
        chars@.subrange(at.0 as int, at.1 as int) == trimmed(chars@.subrange(from as int, to as int)),
        forall|i: int| from <= i < at.0 ==> is_space(#[trigger] chars@[i]),
        at.0 < to ==> !is_space(chars@[at.0 as int]),
{
    let ghost s = chars@.subrange(from as int, to as int);
    let mut a: usize = from;
    while a < to && is_whitespace(chars[a])
        invariant
            from <= a <= to <= chars.len(),
            forall|j: int| from <= j < a ==> is_space(chars@[j]),
        decreases to - a,
    {
        a += 1;
    }
    let mut b: usize = to;
    while a < b && is_whitespace(chars[b - 1])
        invariant
            a <= b <= to <= chars.len(),
            forall|j: int| b <= j < to ==> is_space(chars@[j]),
        decreases b - a,
    {
        b -= 1;
    }
    proof {
        let space = |c: char| is_space(c);
        assert forall|i: int| 0 <= i < a - from implies space(#[trigger] s[i]) by {
            assert(s[i] == chars@[from + i]);
        }
        lemma_prefix_len(s, space, a - from);
        let t = trimmed_start(s);
        assert(t =~= chars@.subrange(a as int, to as int));
        assert forall|i: int| t.len() - (to - b) <= i < t.len() implies space(#[trigger] t[i]) by {
            assert(t[i] == chars@[a + i]);
        }
        lemma_suffix_len(t, space, to - b);
        assert(trimmed_end(t) =~= chars@.subrange(a as int, b as int));
    }
    (a, b)
}


/// Whether `needle` stands somewhere in `hay` as a run of neighbours.
pub open spec fn has_infix(hay: Seq<char>, needle: Seq<char>) -> bool {
    exists|at: int| infix_at(hay, needle, at)
}

/// Whether `needle` stands in `hay` from index `at` on.
pub open spec fn infix_at(hay: Seq<char>, needle: Seq<char>, at: int) -> bool {
    0 <= at && at + needle.len() <= hay.len() && hay.subrange(at, at + needle.len()) == needle
}

/// Whether `hay[at..]` begins with `needle`.
fn starts_at(hay: &Vec<char>, needle: &Vec<char>, at: usize) -> (r: bool)
    requires
        at + needle.len() <= hay.len(),
    ensures
        r == infix_at(hay@, needle@, at as int),
{
    let mut j: usize = 0;
    while j < needle.len()
        invariant
            j <= needle.len(),
            at + needle.len() <= hay.len(),
            forall|k: int| 0 <= k < j ==> hay@[at + k] == needle@[k],
        decreases needle.len() - j,
    {
        if hay[at + j] != needle[j] {
            assert(hay@.subrange(at as int, at + needle.len())[j as int] == hay@[at + j]);
            return false;
        }
        j += 1;
    }
    assert(hay@.subrange(at as int, at + needle.len()) =~= needle@);
    true
}

/// Whether `needle` occurs in `hay`, as `str::contains` decides it for a string.
pub fn contains_text(hay: &str, needle: &str) -> (found: bool)
    ensures
        found == has_infix(hay@, needle@),
{
    let h = chars_of(hay);
    let n = chars_of(needle);
    if n.len() > h.len() {
        return false;
    }
    let last: usize = h.len() - n.len();
    let mut at: usize = 0;
    loop
        invariant
            at <= last,
            last == h.len() - n.len(),
            n.len() <= h.len(),
            h@ == hay@,
            n@ == needle@,
            forall|k: int| 0 <= k < at ==> !infix_at(h@, n@, k),
        decreases last - at,
    {
        if starts_at(&h, &n, at) {
            return true;
        }
        if at == last {
            return false;
        }
        at += 1;
    }
}

/// How many leading places two sequences agree on.
pub open spec fn agree_len(a: Seq<int>, b: Seq<int>) -> nat
    decreases a.len(),
{
    if a.len() > 0 && b.len() > 0 && a[0] == b[0] {
        1 + agree_len(a.drop_first(), b.drop_first())
    } else {
        0
    }
}

/// Dictionary order: at the first place where they differ `a` is smaller, or
/// `a` ends there and `b` goes on.
pub open spec fn lex_less(a: Seq<int>, b: Seq<int>) -> bool {
    let k = agree_len(a, b) as int;
    k < b.len() && (k == a.len() || a[k] < b[k])
}

/// The code points of a text, by which strings are ordered.
pub open spec fn code_points(s: Seq<char>) -> Seq<int> {
    Seq::new(s.len(), |i: int| s[i] as int)
}

/// `agree_len` is the one index up to which both agree and at which they part.
pub proof fn lemma_agree_len(a: Seq<int>, b: Seq<int>, k: int)
    requires
        0 <= k <= a.len(),
        k <= b.len(),
        forall|i: int| 0 <= i < k ==> a[i] == b[i],
        k < a.len() && k < b.len() ==> a[k] != b[k],
    ensures
        agree_len(a, b) == k,
    decreases k,
{
    if k > 0 {
        let x = a.drop_first();
        let y = b.drop_first();
        assert forall|i: int| 0 <= i < k - 1 implies x[i] == y[i] by {
            assert(x[i] == a[i + 1] && y[i] == b[i + 1]);
        }
        lemma_agree_len(x, y, k - 1);
    }
}

/// What `agree_len` says of the two sequences.
pub proof fn lemma_agree_len_holds(a: Seq<int>, b: Seq<int>)
    ensures
        agree_len(a, b) <= a.len(),
        agree_len(a, b) <= b.len(),
        forall|i: int| 0 <= i < agree_len(a, b) ==> a[i] == b[i],
        agree_len(a, b) < a.len() && agree_len(a, b) < b.len() ==> a[agree_len(a, b) as int]
            != b[agree_len(a, b) as int],
    decreases a.len(),
{
    if a.len() > 0 && b.len() > 0 && a[0] == b[0] {
        let x = a.drop_first();
        let y = b.drop_first();
        lemma_agree_len_holds(x, y);
        let k = agree_len(x, y) as int;
        assert forall|i: int| 0 <= i < k + 1 implies a[i] == b[i] by {
            if i > 0 {
                assert(x[i - 1] == a[i] && y[i - 1] == b[i]);
            }
        }
        if k + 1 < a.len() && k + 1 < b.len() {
            assert(x[k] == a[k + 1] && y[k] == b[k + 1]);
        }
    }
}

/// Of two sequences exactly one holds: the first is smaller, they are equal,
/// or the second is smaller.
pub proof fn lemma_lex_trichotomy(a: Seq<int>, b: Seq<int>)
    ensures
        lex_less(a, b) || a == b || lex_less(b, a),
        !(lex_less(a, b) && lex_less(b, a)),
        !(lex_less(a, b) && a == b),
{
    lemma_agree_len_holds(a, b);
    lemma_agree_len_holds(b, a);
    lemma_agree_len(b, a, agree_len(a, b) as int);
    if !lex_less(a, b) && !lex_less(b, a) {
        assert(a =~= b);
    }
}

/// Dictionary order is transitive.
pub proof fn lemma_lex_transitive(a: Seq<int>, b: Seq<int>, c: Seq<int>)
    requires
        lex_less(a, b),
        lex_less(b, c),
    ensures
        lex_less(a, c),
{
    lemma_agree_len_holds(a, b);
    lemma_agree_len_holds(b, c);
    let i = agree_len(a, b) as int;
    let j = agree_len(b, c) as int;
    let k = if i <= j { i } else { j };
    lemma_agree_len(a, c, k);
}

/// Whether `a` comes before `b` in the order of strings: by code point, place
/// for place, a proper prefix first.
pub fn text_less(a: &str, b: &str) -> (less: bool)
    ensures
        less == lex_less(code_points(a@), code_points(b@)),
{
    let x = chars_of(a);
    let y = chars_of(b);
    let ghost p = code_points(a@);
    let ghost q = code_points(b@);
    let mut i: usize = 0;
    while i < x.len() && i < y.len() && x[i] == y[i]
        invariant
            i <= x.len(),
            i <= y.len(),
            x@ == a@,
            y@ == b@,
            p == code_points(a@),
            q == code_points(b@),
            forall|j: int| 0 <= j < i ==> p[j] == q[j],
        decreases x.len() - i,
    {
        i += 1;
    }
    proof {
        lemma_agree_len(p, q, i as int);
    }
    i < y.len() && (i == x.len() || x[i] < y[i])
}

} // verus!
