//! The mathematics of implicants: cubes over `0`, `1` and the don't-care
//! mark, the assignments they cover, and what it means to be prime.

use vstd::prelude::*;

verus! {

/// The mark of a variable that a product does not mention.
pub const DONT_CARE: char = '_';

/// The character of a bit.
pub open spec fn bit_mark(b: bool) -> char {
    if b {
        '1'
    } else {
        '0'
    }
}

/// How often `ch` occurs in `s`.
pub open spec fn count(s: Seq<char>, ch: char) -> nat
    decreases s.len(),
{
    if s.len() == 0 {
        0
    } else {
        count(s.drop_last(), ch) + if s.last() == ch {
            1nat
        } else {
            0nat
        }
    }
}

/// A cube over `n` variables: one of `0`, `1` and the don't-care mark for
/// each.
pub open spec fn is_cube(c: Seq<char>, n: nat) -> bool {
    &&& c.len() == n
    &&& forall|j: int| 0 <= j < n ==> #[trigger] c[j] == '0' || c[j] == '1' || c[j] == DONT_CARE
}

/// The cube that covers the assignment `m` alone.
pub open spec fn cube_of(m: Seq<bool>) -> Seq<char> {
    Seq::new(m.len(), |j: int| bit_mark(m[j]))
}

/// The cube `c` covers the assignment `m`: they agree wherever `c` is not
/// marked don't-care.
pub open spec fn covers(c: Seq<char>, m: Seq<bool>) -> bool {
    &&& c.len() == m.len()
    &&& forall|j: int| 0 <= j < c.len() ==> #[trigger] c[j] == DONT_CARE || c[j] == bit_mark(m[j])
}

/// The cube `c` is an implicant of the function that is true on `on`: the
/// function is true on every assignment that `c` covers.
pub open spec fn implicant(c: Seq<char>, on: Set<Seq<bool>>, n: nat) -> bool {
    &&& is_cube(c, n)
    &&& forall|m: Seq<bool>| #[trigger] covers(c, m) ==> on.contains(m)
}

/// The implicant `c` is prime: no variable that it mentions can be dropped.
pub open spec fn prime(c: Seq<char>, on: Set<Seq<bool>>, n: nat) -> bool {
    &&& implicant(c, on, n)
    &&& forall|j: int|
        0 <= j < n && c[j] != DONT_CARE ==> !implicant(#[trigger] c.update(j, DONT_CARE), on, n)
}

/// The two cubes are of one length and differ in exactly one place.
pub open spec fn differ_one(a: Seq<char>, b: Seq<char>) -> bool {
    &&& a.len() == b.len()
    &&& exists|j: int| differ_at(a, b, j)
}

/// The two cubes are of one length and differ at place `j` and nowhere
/// else.
pub open spec fn differ_at(a: Seq<char>, b: Seq<char>, j: int) -> bool {
    &&& a.len() == b.len()
    &&& 0 <= j < a.len()
    &&& a[j] != b[j]
    &&& forall|i: int| 0 <= i < a.len() && i != j ==> a[i] == b[i]
}

/// The cube that keeps what two cubes agree on and is marked don't-care
/// where they differ.
pub open spec fn collate(a: Seq<char>, b: Seq<char>) -> Seq<char> {
    Seq::new(
        a.len(),
        |i: int|
            if a[i] == b[i] {
                a[i]
            } else {
                DONT_CARE
            },
    )
}

/// The other bit.
pub open spec fn flip(ch: char) -> char {
    if ch == '0' {
        '1'
    } else {
        '0'
    }
}

/// A count is at most the length.
pub proof fn lemma_count_bound(s: Seq<char>, ch: char)
    ensures
        count(s, ch) <= s.len(),
    decreases s.len(),
{
    if s.len() > 0 {
        lemma_count_bound(s.drop_last(), ch);
    }
}

/// Writing `x` over place `j` takes one from the count of what stood there
/// and adds one to the count of `x`.
pub proof fn lemma_count_update(s: Seq<char>, j: int, x: char, ch: char)
    requires
        0 <= j < s.len(),
    ensures
        count(s.update(j, x), ch) + (if s[j] == ch {
            1nat
        } else {
            0nat
        }) == count(s, ch) + (if x == ch {
            1nat
        } else {
            0nat
        }),
    decreases s.len(),
{
    let t = s.update(j, x);
    if j == s.len() - 1 {
        assert(t.drop_last() =~= s.drop_last());
    } else {
        assert(t.drop_last() =~= s.drop_last().update(j, x));
        lemma_count_update(s.drop_last(), j, x, ch);
    }
}

/// A character that is counted occurs somewhere.
pub proof fn lemma_count_positive(s: Seq<char>, ch: char) -> (j: int)
    requires
        count(s, ch) > 0,
    ensures
        0 <= j < s.len(),
        s[j] == ch,
    decreases s.len(),
{
    if s.last() == ch {
        s.len() - 1
    } else {
        lemma_count_positive(s.drop_last(), ch)
    }
}

/// A character that occurs nowhere is counted zero times.
pub proof fn lemma_count_zero(s: Seq<char>, ch: char)
    requires
        forall|j: int| 0 <= j < s.len() ==> s[j] != ch,
    ensures
        count(s, ch) == 0,
    decreases s.len(),
{
    if s.len() > 0 {
        lemma_count_zero(s.drop_last(), ch);
    }
}

/// The cube of an assignment mentions every variable, covers that
/// assignment and no other, and has as many ones as the assignment has true
/// bits.
pub proof fn lemma_cube_of(m: Seq<bool>)
    ensures
        is_cube(cube_of(m), m.len()),
        count(cube_of(m), DONT_CARE) == 0,
        covers(cube_of(m), m),
        forall|m2: Seq<bool>| #[trigger] covers(cube_of(m), m2) ==> m2 == m,
{
    lemma_count_zero(cube_of(m), DONT_CARE);
    assert forall|m2: Seq<bool>| #[trigger] covers(cube_of(m), m2) implies m2 == m by {
        assert forall|j: int| 0 <= j < m.len() implies m2[j] == m[j] by {
            assert(cube_of(m)[j] == bit_mark(m2[j]));
        }
        assert(m2 =~= m);
    }
}

/// A cube that mentions every variable is the cube of an assignment.
pub proof fn lemma_full_cube(c: Seq<char>, n: nat) -> (m: Seq<bool>)
    requires
        is_cube(c, n),
        count(c, DONT_CARE) == 0,
    ensures
        m.len() == n,
        cube_of(m) == c,
{
    let m = Seq::new(n, |j: int| c[j] == '1');
    assert forall|j: int| 0 <= j < n implies cube_of(m)[j] == c[j] by {
        if c[j] == DONT_CARE {
            lemma_count_update(c, j, '0', DONT_CARE);
        }
    }
    assert(cube_of(m) =~= c);
    m
}

/// Two cubes with as many don't-care marks as each other that differ in one
/// place hold the two bits there, and collate to either of them with that
/// place marked don't-care.
pub proof fn lemma_differ_bits(a: Seq<char>, b: Seq<char>, n: nat, j: int)
    requires
        is_cube(a, n),
        is_cube(b, n),
        count(a, DONT_CARE) == count(b, DONT_CARE),
        differ_at(a, b, j),
    ensures
        a[j] != DONT_CARE,
        b[j] != DONT_CARE,
        b[j] == flip(a[j]),
        b == a.update(j, b[j]),
        collate(a, b) == a.update(j, DONT_CARE),
        collate(a, b) == b.update(j, DONT_CARE),
{
    assert(b =~= a.update(j, b[j]));
    lemma_count_update(a, j, b[j], DONT_CARE);
    assert(collate(a, b) =~= a.update(j, DONT_CARE));
    assert(collate(a, b) =~= b.update(j, DONT_CARE));
}

/// Marking a place don't-care covers what the cube covered with either bit
/// in that place, and nothing else.
pub proof fn lemma_widen_covers(a: Seq<char>, n: nat, j: int, m: Seq<bool>)
    requires
        is_cube(a, n),
        0 <= j < n,
        a[j] != DONT_CARE,
    ensures
        covers(a.update(j, DONT_CARE), m) <==> (covers(a, m) || covers(a.update(j, flip(a[j])), m)),
{
    let w = a.update(j, DONT_CARE);
    let f = a.update(j, flip(a[j]));
    if covers(w, m) {
        if bit_mark(m[j]) == a[j] {
            assert forall|i: int| 0 <= i < a.len() implies #[trigger] a[i] == DONT_CARE || a[i]
                == bit_mark(m[i]) by {
                if i != j {
                    assert(w[i] == a[i]);
                }
            }
        } else {
            assert forall|i: int| 0 <= i < f.len() implies #[trigger] f[i] == DONT_CARE || f[i]
                == bit_mark(m[i]) by {
                if i != j {
                    assert(w[i] == a[i]);
                }
            }
        }
    }
    if covers(a, m) {
        assert forall|i: int| 0 <= i < w.len() implies #[trigger] w[i] == DONT_CARE || w[i]
            == bit_mark(m[i]) by {
            if i != j {
                assert(a[i] == DONT_CARE || a[i] == bit_mark(m[i]));
            }
        }
    }
    if covers(f, m) {
        assert forall|i: int| 0 <= i < w.len() implies #[trigger] w[i] == DONT_CARE || w[i]
            == bit_mark(m[i]) by {
            if i != j {
                assert(f[i] == DONT_CARE || f[i] == bit_mark(m[i]));
            }
        }
    }
}

/// Two implicants that differ in one place collate to an implicant with one
/// more don't-care mark.
pub proof fn lemma_collate_implicant(a: Seq<char>, b: Seq<char>, on: Set<Seq<bool>>, n: nat)
    requires
        implicant(a, on, n),
        implicant(b, on, n),
        count(a, DONT_CARE) == count(b, DONT_CARE),
        differ_one(a, b),
    ensures
        implicant(collate(a, b), on, n),
        count(collate(a, b), DONT_CARE) == count(a, DONT_CARE) + 1,
        count(a, '1') < count(b, '1') ==> count(collate(a, b), '1') == count(a, '1') && count(
            b,
            '1',
        ) == count(a, '1') + 1,
{
    let j = choose|j: int| differ_at(a, b, j);
    lemma_differ_bits(a, b, n, j);
    let w = collate(a, b);
    lemma_count_update(a, j, DONT_CARE, DONT_CARE);
    lemma_count_update(a, j, DONT_CARE, '1');
    lemma_count_update(a, j, b[j], '1');
    assert forall|m: Seq<bool>| #[trigger] covers(w, m) implies on.contains(m) by {
        lemma_widen_covers(a, n, j, m);
        if !covers(a, m) {
            assert(a.update(j, flip(a[j])) == b);
            assert(covers(b, m));
        }
    }
}

/// An implicant with a don't-care mark comes from two implicants with one
/// mark less that differ in that place alone.
pub proof fn lemma_split_implicant(c: Seq<char>, on: Set<Seq<bool>>, n: nat, j: int)
    requires
        implicant(c, on, n),
        0 <= j < n,
        c[j] == DONT_CARE,
    ensures
        implicant(c.update(j, '0'), on, n),
        implicant(c.update(j, '1'), on, n),
        count(c.update(j, '0'), DONT_CARE) + 1 == count(c, DONT_CARE),
        count(c.update(j, '1'), DONT_CARE) + 1 == count(c, DONT_CARE),
        count(c.update(j, '0'), '1') == count(c, '1'),
        count(c.update(j, '1'), '1') == count(c, '1') + 1,
        differ_at(c.update(j, '0'), c.update(j, '1'), j),
        collate(c.update(j, '0'), c.update(j, '1')) == c,
{
    let a = c.update(j, '0');
    let b = c.update(j, '1');
    lemma_count_update(c, j, '0', DONT_CARE);
    lemma_count_update(c, j, '1', DONT_CARE);
    lemma_count_update(c, j, '0', '1');
    lemma_count_update(c, j, '1', '1');
    assert(a.update(j, DONT_CARE) =~= c);
    assert(a.update(j, flip(a[j])) =~= b);
    assert forall|m: Seq<bool>| #[trigger] covers(a, m) implies on.contains(m) by {
        lemma_widen_covers(a, n, j, m);
        assert(covers(c, m));
    }
    assert forall|m: Seq<bool>| #[trigger] covers(b, m) implies on.contains(m) by {
        lemma_widen_covers(a, n, j, m);
        assert(covers(c, m));
    }
    assert(collate(a, b) =~= c);
}

/// An implicant is prime exactly where no implicant with as many don't-care
/// marks differs from it in one place.
pub proof fn lemma_prime_iff_alone(a: Seq<char>, on: Set<Seq<bool>>, n: nat)
    requires
        implicant(a, on, n),
    ensures
        prime(a, on, n) <==> forall|b: Seq<char>|
            implicant(b, on, n) && count(b, DONT_CARE) == count(a, DONT_CARE) ==> !#[trigger] differ_one(
                a,
                b,
            ),
{
    if prime(a, on, n) {
        assert forall|b: Seq<char>|
            implicant(b, on, n) && count(b, DONT_CARE) == count(a, DONT_CARE) implies !#[trigger] differ_one(
            a,
            b,
        ) by {
            if differ_one(a, b) {
                let j = choose|j: int| differ_at(a, b, j);
                lemma_differ_bits(a, b, n, j);
                lemma_collate_implicant(a, b, on, n);
                assert(implicant(a.update(j, DONT_CARE), on, n));
            }
        }
    } else {
        let j = choose|j: int|
            0 <= j < n && a[j] != DONT_CARE && implicant(#[trigger] a.update(j, DONT_CARE), on, n);
        let w = a.update(j, DONT_CARE);
        let b = a.update(j, flip(a[j]));
        assert(w[j] == DONT_CARE);
        lemma_split_implicant(w, on, n, j);
        assert(w.update(j, '0') =~= a.update(j, '0'));
        assert(w.update(j, '1') =~= a.update(j, '1'));
        if a[j] == '0' {
            assert(a.update(j, '0') =~= a);
        } else {
            assert(a.update(j, '1') =~= a);
        }
        assert(implicant(b, on, n));
        lemma_count_update(a, j, flip(a[j]), DONT_CARE);
        assert(differ_at(a, b, j));
        assert(differ_one(a, b));
    }
}

} // verus!
