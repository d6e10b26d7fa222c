//! Character-level helpers shared by the emitters: a model of strings as
//! sequences of characters, and the few operations on them that the
//! renderers need, each proved against its statement.
use vstd::prelude::*;

verus! {

/// Appends one character to a string (`String::push`).
#[verifier::external_body]
pub(crate) fn push_char(s: &mut String, c: char)
    ensures
        final(s)@ == old(s)@.push(c),
{
    s.push(c);
}

/// Appends the characters of `t` to `s`.
pub fn push_str(s: &mut String, t: &str)
    ensures
        final(s)@ == old(s)@ + t@,
{
    s.append(t);
}

pub open spec fn is_ascii_digit(c: char) -> bool {
    '0' <= c && c <= '9'
}

pub open spec fn is_ascii_alnum(c: char) -> bool {
    is_ascii_digit(c) || ('a' <= c && c <= 'z') || ('A' <= c && c <= 'Z')
}

/// `char::is_ascii_alphanumeric`.
pub fn ascii_alnum(c: char) -> (r: bool)
    ensures
        r == is_ascii_alnum(c),
{
    (c >= '0' && c <= '9') || (c >= 'a' && c <= 'z') || (c >= 'A' && c <= 'Z')
}

/// `char::is_ascii_digit`.
pub fn ascii_digit(c: char) -> (r: bool)
    ensures
        r == is_ascii_digit(c),
{
    c >= '0' && c <= '9'
}

/// The ASCII lower-case form of a character; other characters are unchanged.
pub open spec fn ascii_lower(c: char) -> u32 {
    if 'A' <= c && c <= 'Z' {
        (c as u32 + 32) as u32
    } else {
        c as u32
    }
}

pub fn to_ascii_lower(c: char) -> (r: u32)
    ensures
        r == ascii_lower(c),
{
    let n = c as u32;
    if c >= 'A' && c <= 'Z' {
        n + 32
    } else {
        n
    }
}

/// Two strings are equal when ASCII letters are compared without case.
pub open spec fn eq_ignore_case(a: Seq<char>, b: Seq<char>) -> bool {
    a.len() == b.len() && forall|i: int| 0 <= i < a.len() ==> ascii_lower(#[trigger] a[i]) == ascii_lower(b[i])
}

/// The characters of a string, in order.
pub fn chars_of(s: &str) -> (v: Vec<char>)
    ensures
        v@ == s@,
{
    let n = s.unicode_len();
    let mut v: Vec<char> = Vec::new();
    let mut i: usize = 0;
    while i < n
        invariant
            n == s@.len(),
            i <= n,
            v@ == s@.subrange(0, i as int),
        decreases n - i,
    {
        let c = s.get_char(i);
        v.push(c);
        i = i + 1;
    }
    v
}

/// `str::eq_ignore_ascii_case`.
pub fn eq_ignore_ascii_case(a: &str, b: &str) -> (r: bool)
    ensures
        r == eq_ignore_case(a@, b@),
{
    let x = chars_of(a);
    let y = chars_of(b);
    if x.len() != y.len() {
        return false;
    }
    let mut i: usize = 0;
    while i < x.len()
        invariant
            x@ == a@,
            y@ == b@,
            x.len() == y.len(),
            i <= x.len(),
            forall|k: int| 0 <= k < i ==> ascii_lower(#[trigger] x@[k]) == ascii_lower(y@[k]),
        decreases x.len() - i,
    {
        if to_ascii_lower(x[i]) != to_ascii_lower(y[i]) {
            return false;
        }
        i = i + 1;
    }
    true
}

/// Whether two strings hold the same characters.
pub fn str_eq(a: &str, b: &str) -> (r: bool)
    ensures
        r == (a@ == b@),
{
    let x = chars_of(a);
    let y = chars_of(b);
    if x.len() != y.len() {
        return false;
    }
    let mut i: usize = 0;
    while i < x.len()
        invariant
            x@ == a@,
            y@ == b@,
            x.len() == y.len(),
            i <= x.len(),
            forall|k: int| 0 <= k < i ==> #[trigger] x@[k] == y@[k],
        decreases x.len() - i,
    {
        if x[i] != y[i] {
            return false;
        }
        i = i + 1;
    }
    assert(x@ =~= y@);
    true
}

/// The number of characters of a string.
pub fn char_count(s: &str) -> (n: usize)
    ensures
        n == s@.len(),
{
    s.unicode_len()
}

/// Strict lexicographic order on strings, character by character by code
/// point; for UTF-8 text it is the order of `str`'s `Ord`.
pub open spec fn chars_lt(a: Seq<char>, b: Seq<char>) -> bool
    decreases a.len(),
{
    if b.len() == 0 {
        false
    } else if a.len() == 0 {
        true
    } else if a[0] != b[0] {
        a[0] < b[0]
    } else {
        chars_lt(a.drop_first(), b.drop_first())
    }
}

pub proof fn lemma_chars_lt_irreflexive(a: Seq<char>)
    ensures
        !chars_lt(a, a),
    decreases a.len(),
{
    if a.len() > 0 {
        lemma_chars_lt_irreflexive(a.drop_first());
    }
}

pub proof fn lemma_chars_lt_total(a: Seq<char>, b: Seq<char>)
    ensures
        a != b ==> chars_lt(a, b) || chars_lt(b, a),
        !(chars_lt(a, b) && chars_lt(b, a)),
    decreases a.len(),
{
    if a.len() > 0 && b.len() > 0 {
        lemma_chars_lt_total(a.drop_first(), b.drop_first());
        if a[0] == b[0] && a != b {
            assert(a =~= seq![a[0]] + a.drop_first());
            assert(b =~= seq![b[0]] + b.drop_first());
        }
    } else if a.len() == 0 && b.len() == 0 {
        assert(a =~= b);
    }
}

pub proof fn lemma_chars_lt_transitive(a: Seq<char>, b: Seq<char>, c: Seq<char>)
    requires
        chars_lt(a, b),
        chars_lt(b, c),
    ensures
        chars_lt(a, c),
    decreases a.len(),
{
    if a.len() > 0 && a[0] == b[0] && b[0] == c[0] {
        lemma_chars_lt_transitive(a.drop_first(), b.drop_first(), c.drop_first());
    }
}

/// `a` sorts before `b` in dictionary order: `a` is a proper prefix of
/// `b`, or at the first place where they differ `a` has the smaller
/// character (by code point).
pub open spec fn dictionary_before(a: Seq<char>, b: Seq<char>) -> bool {
    ||| (a.len() < b.len() && b.subrange(0, a.len() as int) == a)
    ||| exists|i: int|
        0 <= i < a.len() && i < b.len() && a.subrange(0, i) == b.subrange(0, i) && (#[trigger] a[i] as int)
            < b[i] as int
}

/// The order names are kept in is dictionary order.
pub proof fn lemma_chars_lt_dictionary(a: Seq<char>, b: Seq<char>)
    ensures
        chars_lt(a, b) <==> dictionary_before(a, b),
    decreases a.len(),
{
    if b.len() == 0 {
        if dictionary_before(a, b) {
            let i = choose|i: int|
                0 <= i < a.len() && i < b.len() && a.subrange(0, i) == b.subrange(0, i) && (#[trigger] a[i] as int)
                    < b[i] as int;
        }
    } else if a.len() == 0 {
        assert(b.subrange(0, 0) =~= a);
    } else if a[0] != b[0] {
        if a.len() < b.len() && b.subrange(0, a.len() as int) == a {
            assert(b.subrange(0, a.len() as int)[0] == b[0]);
        }
        if exists|i: int|
            0 <= i < a.len() && i < b.len() && a.subrange(0, i) == b.subrange(0, i) && (#[trigger] a[i] as int)
                < b[i] as int {
            let i = choose|i: int|
                0 <= i < a.len() && i < b.len() && a.subrange(0, i) == b.subrange(0, i) && (#[trigger] a[i] as int)
                    < b[i] as int;
            if i > 0 {
                assert(a.subrange(0, i)[0] == a[0]);
                assert(b.subrange(0, i)[0] == b[0]);
            }
        }
        if (a[0] as int) < (b[0] as int) {
            assert(a.subrange(0, 0) =~= b.subrange(0, 0));
        }
    } else {
        let a1 = a.drop_first();
        let b1 = b.drop_first();
        lemma_chars_lt_dictionary(a1, b1);
        if a.len() < b.len() && b.subrange(0, a.len() as int) == a {
            assert(b1.subrange(0, a1.len() as int) =~= b.subrange(0, a.len() as int).drop_first());
        }
        if a1.len() < b1.len() && b1.subrange(0, a1.len() as int) == a1 {
            assert(b.subrange(0, a.len() as int) =~= seq![b[0]] + b1.subrange(0, a1.len() as int));
            assert(a =~= seq![a[0]] + a1);
        }
        if exists|i: int|
            0 <= i < a.len() && i < b.len() && a.subrange(0, i) == b.subrange(0, i) && (#[trigger] a[i] as int)
                < b[i] as int {
            let i = choose|i: int|
                0 <= i < a.len() && i < b.len() && a.subrange(0, i) == b.subrange(0, i) && (#[trigger] a[i] as int)
                    < b[i] as int;
            assert(i > 0);
            assert(a1.subrange(0, i - 1) =~= a.subrange(0, i).drop_first());
            assert(b1.subrange(0, i - 1) =~= b.subrange(0, i).drop_first());
            assert(a1[i - 1] == a[i]);
            assert(b1[i - 1] == b[i]);
        }
        if exists|i: int|
            0 <= i < a1.len() && i < b1.len() && a1.subrange(0, i) == b1.subrange(0, i) && (#[trigger] a1[i] as int)
                < b1[i] as int {
            let i = choose|i: int|
                0 <= i < a1.len() && i < b1.len() && a1.subrange(0, i) == b1.subrange(0, i) && (#[trigger] a1[i]
                    as int) < b1[i] as int;
            assert(a.subrange(0, i + 1) =~= seq![a[0]] + a1.subrange(0, i));
            assert(b.subrange(0, i + 1) =~= seq![b[0]] + b1.subrange(0, i));
            assert(a[i + 1] == a1[i]);
            assert(b[i + 1] == b1[i]);
        }
    }
}

/// The text `part` stands somewhere in `s`.
pub open spec fn occurs_in(part: Seq<char>, s: Seq<char>) -> bool {
    exists|i: int| 0 <= i && i + part.len() <= s.len() && #[trigger] s.subrange(i, i + part.len()) == part
}

pub proof fn lemma_occurs_self(part: Seq<char>)
    ensures
        occurs_in(part, part),
{
    let z: int = 0;
    assert(part.subrange(z, z + part.len()) =~= part);
}

/// What stands in a text stands in it with more before or after.
pub proof fn lemma_occurs_concat(part: Seq<char>, a: Seq<char>, b: Seq<char>)
    ensures
        occurs_in(part, a) ==> occurs_in(part, a + b),
        occurs_in(part, b) ==> occurs_in(part, a + b),
{
    if occurs_in(part, a) {
        let i = choose|i: int| 0 <= i && i + part.len() <= a.len() && #[trigger] a.subrange(i, i + part.len()) == part;
        assert((a + b).subrange(i, i + part.len()) =~= a.subrange(i, i + part.len()));
    }
    if occurs_in(part, b) {
        let i = choose|i: int| 0 <= i && i + part.len() <= b.len() && #[trigger] b.subrange(i, i + part.len()) == part;
        assert((a + b).subrange(a.len() + i, a.len() + i + part.len()) =~= b.subrange(i, i + part.len()));
    }
}

/// Whether `a` sorts strictly before `b`.
pub fn str_lt(a: &str, b: &str) -> (r: bool)
    ensures
        r == chars_lt(a@, b@),
{
    let x = chars_of(a);
    let y = chars_of(b);
    let mut i: usize = 0;
    assert(x@.skip(0) =~= x@);
    assert(y@.skip(0) =~= y@);
    while i < x.len() && i < y.len()
        invariant
            x@ == a@,
            y@ == b@,
            i <= x.len(),
            i <= y.len(),
            chars_lt(a@, b@) == chars_lt(x@.skip(i as int), y@.skip(i as int)),
        decreases x.len() - i,
    {
        if x[i] != y[i] {
            assert(x@.skip(i as int)[0] == x@[i as int]);
            assert(y@.skip(i as int)[0] == y@[i as int]);
            return x[i] < y[i];
        }
        assert(x@.skip(i as int).drop_first() =~= x@.skip(i + 1));
        assert(y@.skip(i as int).drop_first() =~= y@.skip(i + 1));
        i = i + 1;
    }
    i < y.len()
}

/// The characters of `s` with each replaced by the string that `f` gives it.
pub open spec fn flat_map(s: Seq<char>, f: spec_fn(char) -> Seq<char>) -> Seq<char>
    decreases s.len(),
{
    if s.len() == 0 {
        seq![]
    } else {
        flat_map(s.drop_last(), f) + f(s.last())
    }
}

pub proof fn lemma_flat_map_push(s: Seq<char>, i: int, f: spec_fn(char) -> Seq<char>)
    requires
        0 <= i < s.len(),
    ensures
        flat_map(s.take(i + 1), f) == flat_map(s.take(i), f) + f(s[i]),
{
    assert(s.take(i + 1).drop_last() =~= s.take(i));
}

/// The strings of a list joined with a separator between neighbours.
pub open spec fn join(list: Seq<Seq<char>>, sep: Seq<char>) -> Seq<char>
    decreases list.len(),
{
    if list.len() == 0 {
        seq![]
    } else if list.len() == 1 {
        list[0]
    } else {
        join(list.drop_last(), sep) + sep + list.last()
    }
}

/// The views of a list of strings.
pub open spec fn views(v: Seq<String>) -> Seq<Seq<char>> {
    v.map_values(|s: String| s@)
}

/// `[String]::join`.
pub fn join_strings(list: &Vec<String>, sep: &str) -> (res: String)
    ensures
        res@ == join(views(list@), sep@),
{
    let mut res = String::new();
    let mut i: usize = 0;
    while i < list.len()
        invariant
            i <= list.len(),
            res@ == join(views(list@).take(i as int), sep@),
        decreases list.len() - i,
    {
        if i != 0 {
            push_str(&mut res, sep);
        }
        push_str(&mut res, list[i].as_str());
        assert(views(list@).take(i + 1).drop_last() =~= views(list@).take(i as int));
        i = i + 1;
    }
    assert(views(list@).take(list.len() as int) =~= views(list@));
    res
}

/// A list of strings in strictly increasing order.
pub open spec fn strictly_sorted(s: Seq<Seq<char>>) -> bool {
    forall|i: int, j: int| 0 <= i < j < s.len() ==> chars_lt(#[trigger] s[i], #[trigger] s[j])
}

/// Whether a list of strings holds the string.
pub fn contains_name(names: &Vec<String>, name: &String) -> (r: bool)
    ensures
        r == views(names@).contains(name@),
{
    let mut i: usize = 0;
    while i < names.len()
        invariant
            i <= names.len(),
            forall|k: int| 0 <= k < i ==> (#[trigger] names@[k])@ != name@,
        decreases names.len() - i,
    {
        if names[i] == *name {
            assert(views(names@)[i as int] == name@);
            return true;
        }
        i = i + 1;
    }
    assert forall|k: int| 0 <= k < views(names@).len() implies #[trigger] views(names@)[k] != name@ by {
        assert(views(names@)[k] == names@[k]@);
    }
    false
}

/// Adds a string to a sorted list of distinct strings, keeping it sorted
/// and without repeats.
pub fn sorted_insert(v: &mut Vec<String>, s: &String)
    requires
        strictly_sorted(views(old(v)@)),
    ensures
        strictly_sorted(views(final(v)@)),
        forall|x: Seq<char>| #[trigger] views(final(v)@).contains(x) <==> views(old(v)@).contains(x) || x == s@,
        final(v)@.len() <= old(v)@.len() + 1,
{
    let ghost old_v = views(v@);
    let mut i: usize = 0;
    while i < v.len() && str_lt(v[i].as_str(), s.as_str())
        invariant
            views(v@) == old_v,
            strictly_sorted(old_v),
            i <= v.len(),
            forall|j: int| 0 <= j < i ==> chars_lt(#[trigger] old_v[j], s@),
        decreases v.len() - i,
    {
        i = i + 1;
    }
    if i < v.len() && v[i] == *s {
        assert(old_v[i as int] == s@);
        return;
    }
    proof {
        if i < v.len() {
            lemma_chars_lt_total(old_v[i as int], s@);
        }
        assert forall|j: int| i <= j < old_v.len() implies chars_lt(s@, #[trigger] old_v[j]) by {
            if j > i {
                assert(chars_lt(old_v[i as int], old_v[j]));
                lemma_chars_lt_transitive(s@, old_v[i as int], old_v[j]);
            }
        }
    }
    v.insert(i, s.clone());
    proof {
        let nv = views(v@);
        assert(nv =~= old_v.insert(i as int, s@));
        assert forall|a: int, b: int| 0 <= a < b < nv.len() implies chars_lt(#[trigger] nv[a], #[trigger] nv[b]) by {
            if b < i {
            } else if a < i && b == i {
            } else if a < i {
                assert(nv[b] == old_v[b - 1]);
            } else if a == i {
                assert(nv[b] == old_v[b - 1]);
            } else {
                assert(nv[a] == old_v[a - 1]);
                assert(nv[b] == old_v[b - 1]);
            }
        }
        assert forall|x: Seq<char>| #[trigger] nv.contains(x) <==> old_v.contains(x) || x == s@ by {
            if nv.contains(x) {
                let k = choose|k: int| 0 <= k < nv.len() && nv[k] == x;
                if k < i {
                    assert(old_v[k] == x);
                } else if k > i {
                    assert(old_v[k - 1] == x);
                }
            }
            if old_v.contains(x) {
                let k = choose|k: int| 0 <= k < old_v.len() && old_v[k] == x;
                if k < i {
                    assert(nv[k] == x);
                } else {
                    assert(nv[k + 1] == x);
                }
            }
            if x == s@ {
                assert(nv[i as int] == x);
            }
        }
    }
}

} // verus!
