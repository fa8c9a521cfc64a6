use vstd::prelude::*;
use vstd::string::StringSliceAdditionalSpecFns;

verus! {

/// Cost of substituting `y` for `x`: zero when they are equal, one otherwise.
pub open spec fn mismatch<T>(x: T, y: T) -> nat {
    if x == y { 0 } else { 1 }
}

/// The smaller of two numbers.
pub open spec fn min2(x: nat, y: nat) -> nat {
    if x <= y { x } else { y }
}

/// The smallest of three numbers.
pub open spec fn min3(x: nat, y: nat, z: nat) -> nat {
    min2(min2(x, y), z)
}

/// The Levenshtein distance: the least number of single-element insertions,
/// deletions and substitutions that turn `a` into `b`, given by its recurrence
/// on the last elements of both sequences.
#[verifier::opaque]
pub open spec fn levenshtein<T>(a: Seq<T>, b: Seq<T>) -> nat
    decreases a.len() + b.len(),
{
    if a.len() == 0 {
        b.len()
    } else if b.len() == 0 {
        a.len()
    } else {
        min3(
            levenshtein(a.drop_last(), b) + 1,
            levenshtein(a, b.drop_last()) + 1,
            levenshtein(a.drop_last(), b.drop_last()) + mismatch(a.last(), b.last()),
        )
    }
}

/// The same recurrence, taken on the first elements of both sequences.
#[verifier::opaque]
pub open spec fn levenshtein_from_front<T>(a: Seq<T>, b: Seq<T>) -> nat
    decreases a.len() + b.len(),
{
    if a.len() == 0 {
        b.len()
    } else if b.len() == 0 {
        a.len()
    } else {
        min3(
            levenshtein_from_front(a.drop_first(), b) + 1,
            levenshtein_from_front(a, b.drop_first()) + 1,
            levenshtein_from_front(a.drop_first(), b.drop_first()) + mismatch(a[0], b[0]),
        )
    }
}

/// One step of the recurrence from the back.
pub proof fn lemma_back_step<T>(a: Seq<T>, b: Seq<T>)
    ensures
        a.len() == 0 ==> levenshtein(a, b) == b.len(),
        b.len() == 0 ==> levenshtein(a, b) == a.len(),
        a.len() > 0 && b.len() > 0 ==> levenshtein(a, b) == min3(
            levenshtein(a.drop_last(), b) + 1,
            levenshtein(a, b.drop_last()) + 1,
            levenshtein(a.drop_last(), b.drop_last()) + mismatch(a.last(), b.last()),
        ),
{
    reveal(levenshtein);
}

/// One step of the recurrence from the front.
pub proof fn lemma_front_step<T>(a: Seq<T>, b: Seq<T>)
    ensures
        a.len() == 0 ==> levenshtein_from_front(a, b) == b.len(),
        b.len() == 0 ==> levenshtein_from_front(a, b) == a.len(),
        a.len() > 0 && b.len() > 0 ==> levenshtein_from_front(a, b) == min3(
            levenshtein_from_front(a.drop_first(), b) + 1,
            levenshtein_from_front(a, b.drop_first()) + 1,
            levenshtein_from_front(a.drop_first(), b.drop_first()) + mismatch(a[0], b[0]),
        ),
{
    reveal(levenshtein_from_front);
}

/// The distance does not depend on the order of its arguments.
pub proof fn lemma_levenshtein_symmetric<T>(a: Seq<T>, b: Seq<T>)
    ensures
        levenshtein(a, b) == levenshtein(b, a),
    decreases a.len() + b.len(),
{
    lemma_back_step(a, b);
    lemma_back_step(b, a);
    if a.len() > 0 && b.len() > 0 {
        lemma_levenshtein_symmetric(a.drop_last(), b);
        lemma_levenshtein_symmetric(a, b.drop_last());
        lemma_levenshtein_symmetric(a.drop_last(), b.drop_last());
    }
}


/// A word is at distance zero from itself.
pub proof fn lemma_levenshtein_identity<T>(a: Seq<T>)
    ensures
        levenshtein(a, a) == 0,
    decreases a.len(),
{
    lemma_back_step(a, a);
    if a.len() > 0 {
        lemma_levenshtein_identity(a.drop_last());
    }
}

/// Taking the recurrence from the front or from the back gives the same distance.
pub proof fn lemma_front_back_agree<T>(a: Seq<T>, b: Seq<T>)
    ensures
        levenshtein_from_front(a, b) == levenshtein(a, b),
    decreases a.len() + b.len(),
{
    lemma_back_step(a, b);
    lemma_front_step(a, b);
    if a.len() > 0 && b.len() > 0 {
        let af = a.drop_first();
        let al = a.drop_last();
        let bf = b.drop_first();
        let bl = b.drop_last();
        lemma_front_back_agree(af, b);
        lemma_front_back_agree(a, bf);
        lemma_front_back_agree(af, bf);
        lemma_front_back_agree(al, b);
        lemma_front_back_agree(a, bl);
        lemma_front_back_agree(al, bl);
        // expand the three terms of each recurrence once more
        lemma_back_step(af, b);
        lemma_back_step(a, bf);
        lemma_back_step(af, bf);
        lemma_front_step(al, b);
        lemma_front_step(a, bl);
        lemma_front_step(al, bl);
        if a.len() >= 2 {
            assert(al.drop_first() =~= af.drop_last());
            assert(al[0] == a[0]);
            assert(af.last() == a.last());
        } else {
            assert(af =~= al);
        }
        if b.len() >= 2 {
            assert(bl.drop_first() =~= bf.drop_last());
            assert(bl[0] == b[0]);
            assert(bf.last() == b.last());
        } else {
            assert(bf =~= bl);
        }
        if a.len() >= 2 && b.len() >= 2 {
            let afl = af.drop_last();
            let bfl = bf.drop_last();
            lemma_front_back_agree(afl, b);
            lemma_front_back_agree(a, bfl);
            lemma_front_back_agree(afl, bf);
            lemma_front_back_agree(af, bfl);
            lemma_front_back_agree(afl, bl);
            lemma_front_back_agree(al, bfl);
            lemma_front_back_agree(afl, bfl);
            lemma_front_back_agree(al, bf);
            lemma_front_back_agree(af, bl);
        } else if a.len() >= 2 {
            let afl = af.drop_last();
            lemma_front_back_agree(afl, b);
            lemma_front_back_agree(afl, bf);
            lemma_back_step(afl, bf);
            lemma_front_step(afl, bf);
        } else if b.len() >= 2 {
            let bfl = bf.drop_last();
            lemma_front_back_agree(a, bfl);
            lemma_front_back_agree(af, bfl);
            lemma_back_step(af, bfl);
            lemma_front_step(af, bfl);
        }
    }
}

/// Dropping the first element of the left word raises the distance by at most one.
proof fn lemma_front_drop_left<T>(a: Seq<T>, v: Seq<T>)
    requires
        a.len() > 0,
    ensures
        levenshtein_from_front(a.drop_first(), v) <= levenshtein_from_front(a, v) + 1,
    decreases v.len(),
{
    let af = a.drop_first();
    lemma_front_step(a, v);
    lemma_front_step(af, v);
    if v.len() > 0 {
        let vf = v.drop_first();
        lemma_front_step(af, vf);
        lemma_front_drop_left(a, vf);
    }
}

/// The same bound for the first element of the right word.
proof fn lemma_front_drop_right<T>(u: Seq<T>, b: Seq<T>)
    requires
        b.len() > 0,
    ensures
        levenshtein_from_front(u, b.drop_first()) <= levenshtein_from_front(u, b) + 1,
    decreases u.len(),
{
    let bf = b.drop_first();
    lemma_front_step(u, b);
    lemma_front_step(u, bf);
    if u.len() > 0 {
        let uf = u.drop_first();
        lemma_front_step(uf, bf);
        lemma_front_drop_right(uf, b);
    }
}

/// When both words start with the same element, the distance is that of the rest.
pub proof fn lemma_equal_heads<T>(a: Seq<T>, b: Seq<T>)
    requires
        a.len() > 0,
        b.len() > 0,
        a[0] == b[0],
    ensures
        levenshtein(a, b) == levenshtein(a.drop_first(), b.drop_first()),
{
    lemma_front_step(a, b);
    lemma_front_drop_left(a, b.drop_first());
    lemma_front_drop_right(a.drop_first(), b);
    lemma_front_back_agree(a, b);
    lemma_front_back_agree(a.drop_first(), b.drop_first());
}

/// When the words start with different elements, the distance is one more than
/// the least of the three distances left after an edit at the front.
pub proof fn lemma_different_heads<T>(a: Seq<T>, b: Seq<T>)
    requires
        a.len() > 0,
        b.len() > 0,
        a[0] != b[0],
    ensures
        levenshtein(a, b) == min3(
            levenshtein(a, b.drop_first()),
            levenshtein(a.drop_first(), b),
            levenshtein(a.drop_first(), b.drop_first()),
        ) + 1,
{
    lemma_front_step(a, b);
    lemma_front_back_agree(a, b);
    lemma_front_back_agree(a.drop_first(), b);
    lemma_front_back_agree(a, b.drop_first());
    lemma_front_back_agree(a.drop_first(), b.drop_first());
}

/// The distance is never larger than the length of the longer word.
pub proof fn lemma_levenshtein_upper_bound<T>(a: Seq<T>, b: Seq<T>)
    ensures
        levenshtein(a, b) <= if a.len() >= b.len() { a.len() } else { b.len() },
    decreases a.len() + b.len(),
{
    lemma_back_step(a, b);
    if a.len() > 0 && b.len() > 0 {
        lemma_levenshtein_upper_bound(a.drop_last(), b.drop_last());
    }
}

/// The distance depends only on which elements of one word equal which elements
/// of the other: two pairs of words of the same lengths with the same pattern of
/// equalities are at the same distance.
pub proof fn lemma_same_matches<T, U>(a1: Seq<T>, b1: Seq<T>, a2: Seq<U>, b2: Seq<U>)
    requires
        a1.len() == a2.len(),
        b1.len() == b2.len(),
        forall|i: int, j: int|
            0 <= i < a1.len() && 0 <= j < b1.len() ==> ((a1[i] == b1[j]) <==> (a2[i] == b2[j])),
    ensures
        levenshtein(a1, b1) == levenshtein(a2, b2),
    decreases a1.len() + b1.len(),
{
    lemma_back_step(a1, b1);
    lemma_back_step(a2, b2);
    if a1.len() > 0 && b1.len() > 0 {
        lemma_same_matches(a1.drop_last(), b1, a2.drop_last(), b2);
        lemma_same_matches(a1, b1.drop_last(), a2, b2.drop_last());
        lemma_same_matches(a1.drop_last(), b1.drop_last(), a2.drop_last(), b2.drop_last());
        assert((a1.last() == b1.last()) <==> (a2.last() == b2.last()));
    }
}

/// One step of the recurrence, written over prefixes of two fixed words: the
/// form in which the dynamic-programming tables use it.
pub proof fn lemma_prefix_step<T>(a: Seq<T>, b: Seq<T>, i: int, j: int)
    requires
        0 <= i <= a.len(),
        0 <= j <= b.len(),
    ensures
        i == 0 ==> levenshtein(a.take(i), b.take(j)) == j,
        j == 0 ==> levenshtein(a.take(i), b.take(j)) == i,
        i > 0 && j > 0 ==> levenshtein(a.take(i), b.take(j)) == min3(
            levenshtein(a.take(i - 1), b.take(j)) + 1,
            levenshtein(a.take(i), b.take(j - 1)) + 1,
            levenshtein(a.take(i - 1), b.take(j - 1)) + mismatch(a[i - 1], b[j - 1]),
        ),
        levenshtein(a.take(i), b.take(j)) <= if i >= j { i } else { j },
{
    lemma_back_step(a.take(i), b.take(j));
    lemma_levenshtein_upper_bound(a.take(i), b.take(j));
    if i > 0 {
        assert(a.take(i).drop_last() =~= a.take(i - 1));
    }
    if j > 0 {
        assert(b.take(j).drop_last() =~= b.take(j - 1));
    }
}

/// The distance from a word to a one-element word is its length, less one when
/// the element occurs in it.
pub proof fn lemma_distance_to_single<T>(p: Seq<T>, y: T)
    requires
        p.len() >= 1,
    ensures
        levenshtein(p, seq![y]) == if p.contains(y) { p.len() - 1 } else { p.len() as int },
    decreases p.len(),
{
    let single = seq![y];
    lemma_back_step(p, single);
    assert(single.drop_last() =~= Seq::<T>::empty());
    let pl = p.drop_last();
    lemma_back_step(pl, single);
    lemma_back_step(p, single.drop_last());
    lemma_back_step(pl, single.drop_last());
    if pl.len() >= 1 {
        lemma_distance_to_single(pl, y);
    }
    if p.contains(y) {
        let k = choose|k: int| 0 <= k < p.len() && p[k] == y;
        if k < p.len() - 1 {
            assert(pl[k] == y);
        }
    }
    if pl.contains(y) {
        let k = choose|k: int| 0 <= k < pl.len() && pl[k] == y;
        assert(p[k] == y);
    }
    if p.last() == y {
        assert(p[p.len() - 1] == y);
    }
}

/// The bytes of two ASCII strings are equal exactly where their characters are.
pub proof fn lemma_ascii_bytes_match(a: &str, b: &str)
    requires
        a.is_ascii(),
        b.is_ascii(),
    ensures
        a.spec_bytes().len() == a@.len(),
        b.spec_bytes().len() == b@.len(),
        forall|i: int, j: int|
            0 <= i < a@.len() && 0 <= j < b@.len() ==> ((a.spec_bytes()[i] == b.spec_bytes()[j])
                <==> (a@[i] == b@[j])),
{
    vstd::utf8::is_ascii_chars_encode_utf8(a@);
    vstd::utf8::is_ascii_chars_encode_utf8(b@);
    assert forall|i: int, j: int|
        0 <= i < a@.len() && 0 <= j < b@.len() implies ((a.spec_bytes()[i] == b.spec_bytes()[j])
            <==> (a@[i] == b@[j])) by {
        let x = a@[i];
        let y = b@[j];
        assert('\0' <= x <= '\u{7f}');
        assert('\0' <= y <= '\u{7f}');
        assert((x as u8 == y as u8) <==> (x == y));
    }
}

/// On ASCII strings the distance between the bytes is the distance between the
/// characters.
pub proof fn lemma_ascii_bytes_distance(a: &str, b: &str)
    requires
        a.is_ascii(),
        b.is_ascii(),
    ensures
        levenshtein(a.spec_bytes(), b.spec_bytes()) == levenshtein(a@, b@),
{
    lemma_ascii_bytes_match(a, b);
    lemma_same_matches(a.spec_bytes(), b.spec_bytes(), a@, b@);
}

/// The distance is never smaller than the difference of the lengths.
pub proof fn lemma_levenshtein_lower_bound<T>(a: Seq<T>, b: Seq<T>)
    ensures
        levenshtein(a, b) >= b.len() - a.len(),
        levenshtein(a, b) >= a.len() - b.len(),
    decreases a.len() + b.len(),
{
    lemma_back_step(a, b);
    if a.len() > 0 && b.len() > 0 {
        lemma_levenshtein_lower_bound(a.drop_last(), b);
        lemma_levenshtein_lower_bound(a, b.drop_last());
        lemma_levenshtein_lower_bound(a.drop_last(), b.drop_last());
    }
}

/// Along the diagonal that starts where `a` begins in `b` at position `k`, the
/// prefixes are at most `k` apart.
proof fn lemma_levenshtein_diagonal<T>(a: Seq<T>, b: Seq<T>, k: int, i: int)
    requires
        0 <= k,
        k + a.len() <= b.len(),
        b.subrange(k, k + a.len()) =~= a,
        0 <= i <= a.len(),
    ensures
        levenshtein(a.take(i), b.take(k + i)) <= k,
    decreases i,
{
    lemma_prefix_step(a, b, i, k + i);
    if i > 0 {
        assert(b[k + i - 1] == b.subrange(k, k + a.len())[i - 1]);
        lemma_levenshtein_diagonal(a, b, k, i - 1);
    }
}

/// Along a row of the table each step to the right costs at most one.
proof fn lemma_levenshtein_row<T>(a: Seq<T>, b: Seq<T>, i: int, j0: int, j: int)
    requires
        0 <= i <= a.len(),
        0 <= j0 <= j <= b.len(),
    ensures
        levenshtein(a.take(i), b.take(j)) <= levenshtein(a.take(i), b.take(j0)) + (j - j0),
    decreases j - j0,
{
    if j > j0 {
        lemma_prefix_step(a, b, i, j);
        lemma_prefix_step(a, b, i, j - 1);
        lemma_prefix_step(a, b, i, j0);
        lemma_levenshtein_row(a, b, i, j0, j - 1);
    }
}

/// When `a` occurs in `b` as a contiguous block, the distance is the difference
/// of their lengths.
pub proof fn lemma_levenshtein_contained<T>(a: Seq<T>, b: Seq<T>, k: int)
    requires
        0 <= k,
        k + a.len() <= b.len(),
        b.subrange(k, k + a.len()) =~= a,
    ensures
        levenshtein(a, b) == b.len() - a.len(),
{
    lemma_levenshtein_diagonal(a, b, k, a.len() as int);
    lemma_levenshtein_row(a, b, a.len() as int, k + a.len(), b.len() as int);
    assert(a.take(a.len() as int) =~= a);
    assert(b.take(b.len() as int) =~= b);
    lemma_levenshtein_lower_bound(a, b);
}

} // verus!
