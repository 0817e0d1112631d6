//! Character-sequence toolkit shared by both halves of the library:
//! splitting on a separator, trimming surrounding blanks, and moving
//! between `String` values and `Vec<char>` working copies.

use vstd::prelude::*;

verus! {

/// Relies on `String::push`: appends exactly the given character.
pub assume_specification[ String::push ](s: &mut String, c: char)
    ensures
        final(s)@ == old(s)@.push(c),
;

/// How many times `c` occurs in `s`.
pub open spec fn count_char(s: Seq<char>, c: char) -> int
    decreases s.len(),
{
    if s.len() == 0 {
        0
    } else {
        (if s[0] == c {
            1int
        } else {
            0int
        }) + count_char(s.drop_first(), c)
    }
}

/// The pieces of `s` between occurrences of `sep`, in order. Always at
/// least one piece; empty pieces are kept, matching `str::split`.
pub open spec fn split_char(s: Seq<char>, sep: char) -> Seq<Seq<char>>
    decreases s.len(),
{
    if s.len() == 0 {
        seq![Seq::<char>::empty()]
    } else if s[0] == sep {
        seq![Seq::<char>::empty()] + split_char(s.drop_first(), sep)
    } else {
        let rest = split_char(s.drop_first(), sep);
        seq![seq![s[0]] + rest[0]] + rest.skip(1)
    }
}

pub proof fn lemma_split_char_len(s: Seq<char>, sep: char)
    ensures
        split_char(s, sep).len() == count_char(s, sep) + 1,
    decreases s.len(),
{
    if s.len() > 0 {
        lemma_split_char_len(s.drop_first(), sep);
    }
}

/// Extending the text by one character either opens a fresh piece (on the
/// separator) or extends the last piece.
pub proof fn lemma_split_char_push(s: Seq<char>, c: char, sep: char)
    ensures
        c == sep ==> split_char(s.push(c), sep) == split_char(s, sep).push(
            Seq::<char>::empty(),
        ),
        c != sep ==> split_char(s.push(c), sep) == split_char(s, sep).update(
            split_char(s, sep).len() - 1,
            split_char(s, sep).last().push(c),
        ),
    decreases s.len(),
{
    lemma_split_char_len(s, sep);
    if s.len() == 0 {
        assert(s.push(c).drop_first() =~= Seq::<char>::empty());
        if c == sep {
            assert(split_char(s.push(c), sep) =~~= split_char(s, sep).push(
                Seq::<char>::empty(),
            ));
        } else {
            assert(split_char(s.push(c), sep) =~~= split_char(s, sep).update(
                0,
                split_char(s, sep).last().push(c),
            ));
        }
    } else {
        let t = s.drop_first();
        assert(s.push(c).drop_first() =~= t.push(c));
        lemma_split_char_push(t, c, sep);
        lemma_split_char_len(t, sep);
        lemma_split_char_len(t.push(c), sep);
        if c == sep {
            assert(split_char(s.push(c), sep) =~~= split_char(s, sep).push(
                Seq::<char>::empty(),
            ));
        } else {
            assert(split_char(s.push(c), sep) =~~= split_char(s, sep).update(
                split_char(s, sep).len() - 1,
                split_char(s, sep).last().push(c),
            ));
        }
    }
}

pub proof fn lemma_count_char_nonneg(s: Seq<char>, c: char)
    ensures
        count_char(s, c) >= 0,
    decreases s.len(),
{
    if s.len() > 0 {
        lemma_count_char_nonneg(s.drop_first(), c);
    }
}

pub proof fn lemma_count_char_append(a: Seq<char>, b: Seq<char>, c: char)
    ensures
        count_char(a + b, c) == count_char(a, c) + count_char(b, c),
    decreases a.len(),
{
    if a.len() == 0 {
        assert(a + b =~= b);
    } else {
        assert((a + b).drop_first() =~= a.drop_first() + b);
        lemma_count_char_append(a.drop_first(), b, c);
    }
}

pub proof fn lemma_count_char_push(s: Seq<char>, x: char, c: char)
    ensures
        count_char(s.push(x), c) == count_char(s, c) + (if x == c {
            1int
        } else {
            0int
        }),
{
    assert(s.push(x) =~= s + seq![x]);
    lemma_count_char_append(s, seq![x], c);
    assert(count_char(seq![x], c) == (if x == c {
        1int
    } else {
        0int
    })) by {
        assert(seq![x].drop_first() =~= Seq::<char>::empty());
        assert(count_char(Seq::<char>::empty(), c) == 0);
    };
}

/// A character occurs in `s` exactly when its count is positive.
pub proof fn lemma_count_char_zero(s: Seq<char>, c: char)
    ensures
        count_char(s, c) == 0 <==> (forall|j: int| 0 <= j < s.len() ==> s[j] != c),
    decreases s.len(),
{
    lemma_count_char_nonneg(s, c);
    if s.len() > 0 {
        lemma_count_char_zero(s.drop_first(), c);
        lemma_count_char_nonneg(s.drop_first(), c);
        if count_char(s, c) == 0 {
            assert(forall|j: int| 0 <= j < s.len() ==> s[j] != c) by {
                assert(forall|j: int| 1 <= j < s.len() ==> s[j] == s.drop_first()[j - 1]);
            };
        }
        if forall|j: int| 0 <= j < s.len() ==> s[j] != c {
            assert(forall|j: int|
                0 <= j < s.drop_first().len() ==> #[trigger] s.drop_first()[j] != c) by {
                assert(forall|j: int|
                    0 <= j < s.drop_first().len() ==> s.drop_first()[j] == s[j + 1]);
            };
        }
    }
}

/// Up to the first occurrence of the separator, the first piece of the
/// split is the text itself.
pub proof fn lemma_split_char_first(s: Seq<char>, sep: char, p: int)
    requires
        0 <= p <= s.len(),
        forall|j: int| 0 <= j < p ==> s[j] != sep,
        p < s.len() ==> s[p] == sep,
    ensures
        split_char(s, sep)[0] == s.take(p),
    decreases p,
{
    if p == 0 {
        if s.len() == 0 || s[0] == sep {
            assert(split_char(s, sep)[0] =~= s.take(0));
        } else {
            let rest = split_char(s.drop_first(), sep);
            assert(split_char(s, sep)[0] == seq![s[0]] + rest[0]);
            assert(p == s.len());  // s[0] != sep and no separator before p
        }
    } else {
        let t = s.drop_first();
        assert(forall|j: int| 0 <= j < p - 1 ==> t[j] != sep) by {
            assert(forall|j: int| 0 <= j < t.len() ==> t[j] == s[j + 1]);
        };
        assert(p - 1 < t.len() ==> t[p - 1] == sep);
        lemma_split_char_first(t, sep, p - 1);
        assert(split_char(s, sep)[0] =~= seq![s[0]] + t.take(p - 1));
        assert(seq![s[0]] + t.take(p - 1) =~= s.take(p));
    }
}

/// Text without the separator splits into itself alone.
pub proof fn lemma_split_no_sep(a: Seq<char>, sep: char)
    requires
        forall|j: int| 0 <= j < a.len() ==> a[j] != sep,
    ensures
        split_char(a, sep) == seq![a],
    decreases a.len(),
{
    if a.len() == 0 {
        assert(split_char(a, sep) =~~= seq![a]);
    } else {
        let t = a.drop_first();
        assert(forall|j: int| 0 <= j < t.len() ==> t[j] != sep) by {
            assert(forall|j: int| 0 <= j < t.len() ==> t[j] == a[j + 1]);
        };
        lemma_split_no_sep(t, sep);
        assert(split_char(a, sep) =~~= seq![a]);
    }
}

/// Splitting at a separator with separator-free text before it yields
/// that text, then the pieces of the rest.
pub proof fn lemma_split_concat(a: Seq<char>, b: Seq<char>, sep: char)
    requires
        forall|j: int| 0 <= j < a.len() ==> a[j] != sep,
    ensures
        split_char(a + seq![sep] + b, sep) == seq![a] + split_char(b, sep),
    decreases a.len(),
{
    let s = a + seq![sep] + b;
    if a.len() == 0 {
        assert(s[0] == sep);
        assert(s.drop_first() =~= b);
        assert(split_char(s, sep) =~~= seq![a] + split_char(b, sep));
    } else {
        let t = a.drop_first();
        assert(forall|j: int| 0 <= j < t.len() ==> t[j] != sep) by {
            assert(forall|j: int| 0 <= j < t.len() ==> t[j] == a[j + 1]);
        };
        assert(s[0] == a[0]);
        assert(s.drop_first() =~= t + seq![sep] + b);
        lemma_split_concat(t, b, sep);
        lemma_split_char_len(b, sep);
        lemma_count_char_nonneg(b, sep);
        assert(split_char(s, sep) =~~= seq![a] + split_char(b, sep));
    }
}

/// Characters treated as removable padding around a field.
pub open spec fn is_blank(c: char) -> bool {
    c == ' ' || c == '\t' || c == '\r' || c == '\n'
}

pub open spec fn trim_start_spec(s: Seq<char>) -> Seq<char>
    decreases s.len(),
{
    if s.len() > 0 && is_blank(s[0]) {
        trim_start_spec(s.drop_first())
    } else {
        s
    }
}

pub open spec fn trim_end_spec(s: Seq<char>) -> Seq<char>
    decreases s.len(),
{
    if s.len() > 0 && is_blank(s.last()) {
        trim_end_spec(s.drop_last())
    } else {
        s
    }
}

/// `s` without leading and trailing blanks.
pub open spec fn trim_spec(s: Seq<char>) -> Seq<char> {
    trim_end_spec(trim_start_spec(s))
}

pub proof fn lemma_trim_start_at(s: Seq<char>, a: int)
    requires
        0 <= a <= s.len(),
        forall|j: int| 0 <= j < a ==> is_blank(s[j]),
        a < s.len() ==> !is_blank(s[a]),
    ensures
        trim_start_spec(s) == s.skip(a),
    decreases a,
{
    if a == 0 {
        assert(s.skip(0) =~= s);
    } else {
        lemma_trim_start_at(s.drop_first(), a - 1);
        assert(s.drop_first().skip(a - 1) =~= s.skip(a));
    }
}

pub proof fn lemma_trim_end_at(s: Seq<char>, b: int)
    requires
        0 <= b <= s.len(),
        forall|j: int| b <= j < s.len() ==> is_blank(s[j]),
        b > 0 ==> !is_blank(s[b - 1]),
    ensures
        trim_end_spec(s) == s.take(b),
    decreases s.len() - b,
{
    if b == s.len() {
        assert(s.take(b) =~= s);
    } else {
        lemma_trim_end_at(s.drop_last(), b);
        assert(s.drop_last().take(b) =~= s.take(b));
    }
}

/// A sequence with no blanks anywhere trims to itself.
pub proof fn lemma_trim_no_blanks(s: Seq<char>)
    requires
        forall|j: int| 0 <= j < s.len() ==> !is_blank(s[j]),
    ensures
        trim_spec(s) == s,
{
    lemma_trim_start_at(s, 0);
    lemma_trim_end_at(s, s.len() as int);
}

/// The characters of `s`, one per `char`, in order.
pub fn chars_of(s: &str) -> (r: Vec<char>)
    ensures
        r@ == s@,
{
    let n = s.unicode_len();
    let mut r: Vec<char> = Vec::new();
    let mut i: usize = 0;
    while i < n
        invariant
            n == s@.len(),
            i <= n,
            r@ == s@.take(i as int),
        decreases n - i,
    {
        let c = s.get_char(i);
        r.push(c);
        proof {
            assert(s@.take(i + 1) =~= s@.take(i as int).push(s@[i as int]));
        }
        i = i + 1;
    }
    proof {
        assert(s@.take(n as int) =~= s@);
    }
    r
}

/// A `String` holding exactly the given characters.
pub fn string_of(v: &Vec<char>) -> (r: String)
    ensures
        r@ == v@,
{
    let mut r = String::new();
    let mut i: usize = 0;
    while i < v.len()
        invariant
            i <= v@.len(),
            r@ == v@.take(i as int),
        decreases v@.len() - i,
    {
        r.push(v[i]);
        proof {
            assert(v@.take(i + 1) =~= v@.take(i as int).push(v@[i as int]));
        }
        i = i + 1;
    }
    proof {
        assert(v@.take(v@.len() as int) =~= v@);
    }
    r
}

/// Splits `s` at every occurrence of `sep`, keeping empty pieces.
pub fn split_on(s: &Vec<char>, sep: char) -> (r: Vec<Vec<char>>)
    ensures
        r@.map_values(|p: Vec<char>| p@) == split_char(s@, sep),
{
    let mut done: Vec<Vec<char>> = Vec::new();
    let mut cur: Vec<char> = Vec::new();
    let mut i: usize = 0;
    while i < s.len()
        invariant
            i <= s@.len(),
            split_char(s@.take(i as int), sep) == done@.map_values(
                |p: Vec<char>| p@,
            ).push(cur@),
        decreases s@.len() - i,
    {
        let ghost prefix = s@.take(i as int);
        let ghost old_done = done@.map_values(|p: Vec<char>| p@);
        let c = s[i];
        proof {
            lemma_split_char_push(prefix, c, sep);
            lemma_split_char_len(prefix, sep);
            assert(s@.take(i + 1) =~= prefix.push(s@[i as int]));
        }
        if c == sep {
            done.push(cur);
            cur = Vec::new();
            proof {
                assert(done@.map_values(|p: Vec<char>| p@) =~~= old_done.push(
                    split_char(prefix, sep).last(),
                ));
                assert(split_char(s@.take(i + 1), sep) =~~= done@.map_values(
                    |p: Vec<char>| p@,
                ).push(cur@));
            }
        } else {
            cur.push(c);
            proof {
                assert(split_char(s@.take(i + 1), sep) =~~= old_done.push(cur@));
            }
        }
        i = i + 1;
    }
    proof {
        assert(s@.take(s@.len() as int) =~= s@);
    }
    done.push(cur);
    proof {
        assert(done@.map_values(|p: Vec<char>| p@) =~~= split_char(s@, sep));
    }
    done
}

/// `s` with leading and trailing blanks removed.
pub fn trim_blanks(s: &Vec<char>) -> (r: Vec<char>)
    ensures
        r@ == trim_spec(s@),
{
    let mut a: usize = 0;
    while a < s.len() && is_blank_char(s[a])
        invariant
            a <= s@.len(),
            forall|j: int| 0 <= j < a ==> is_blank(s@[j]),
        decreases s@.len() - a,
    {
        a = a + 1;
    }
    let mut b: usize = s.len();
    while b > a && is_blank_char(s[b - 1])
        invariant
            a <= b <= s@.len(),
            forall|j: int| b <= j < s@.len() ==> is_blank(s@[j]),
        decreases b,
    {
        b = b - 1;
    }
    let mut r: Vec<char> = Vec::new();
    let mut i: usize = a;
    while i < b
        invariant
            a <= i <= b <= s@.len(),
            r@ == s@.subrange(a as int, i as int),
        decreases b - i,
    {
        r.push(s[i]);
        proof {
            assert(s@.subrange(a as int, i + 1) =~= s@.subrange(
                a as int,
                i as int,
            ).push(s@[i as int]));
        }
        i = i + 1;
    }
    proof {
        lemma_trim_start_at(s@, a as int);
        lemma_trim_end_at(s@.skip(a as int), b - a);
        assert(s@.skip(a as int).take(b - a) =~= s@.subrange(a as int, b as int));
    }
    r
}

/// Executable twin of [`is_blank`].
pub fn is_blank_char(c: char) -> (r: bool)
    ensures
        r == is_blank(c),
{
    c == ' ' || c == '\t' || c == '\r' || c == '\n'
}

} // verus!
