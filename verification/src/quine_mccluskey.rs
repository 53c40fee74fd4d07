//! Reduction of a truth table to a sum of products: the prime implicants of
//! each output, found by combining rows that differ in one bit.

use vstd::prelude::*;
use vstd::string::*;
use crate::cubes::{
    collate, count, cube_of, differ_at, differ_one, implicant,
    lemma_collate_implicant, lemma_count_bound, lemma_count_positive, lemma_count_update,
    lemma_cube_of, lemma_differ_bits, lemma_full_cube, lemma_prime_iff_alone,
    lemma_split_implicant, prime, DONT_CARE,
};
use crate::table::{column_of, Table};
use crate::utils::{
    join_from, join_spec, lemma_lex_antisymmetric, lemma_lex_total, lemma_lex_transitive, lex_leq,
    sorted_strs, texts,
};

verus! {

/// The characters of each cube of a list.
pub open spec fn cubes_view(v: Seq<Vec<char>>) -> Seq<Seq<char>> {
    v.map_values(|c: Vec<char>| c@)
}

/// The cubes of each group of a level.
pub open spec fn level_view(v: Seq<Vec<Vec<char>>>) -> Seq<Seq<Seq<char>>> {
    v.map_values(|g: Vec<Vec<char>>| cubes_view(g@))
}

/// The characters of each name of a list.
pub open spec fn names_view(v: Seq<&str>) -> Seq<Seq<char>> {
    v.map_values(|s: &str| s@)
}

/// The bit in row `i` under the column named `name`: true where the cell
/// holds `1`, false where it holds anything else or the table has no such
/// cell.
pub open spec fn cell_bit(t: &Table<char>, i: int, name: Seq<char>) -> bool {
    t.has_cell(i, name) && t.cell_rows()[i][column_of(t.col_names(), name)->Some_0] == '1'
}

/// The assignment of the inputs `names` in row `i`.
pub open spec fn minterm(t: &Table<char>, i: int, names: Seq<Seq<char>>) -> Seq<bool> {
    Seq::new(names.len(), |j: int| cell_bit(t, i, names[j]))
}

/// The assignments on which the output `out` is true: those of the rows
/// whose cell under `out` holds `1`.
pub open spec fn on_set(t: &Table<char>, names: Seq<Seq<char>>, out: Seq<char>) -> Set<Seq<bool>> {
    Set::new(
        |m: Seq<bool>|
            exists|i: int|
                0 <= i < t.rows@.len() && cell_bit(t, i, out) && #[trigger] minterm(t, i, names)
                    == m,
    )
}

/// Level `k` of the reduction: group `g` holds, once each, exactly the
/// implicants with `k` don't-care marks and `g` ones.
pub open spec fn level_ok(lv: Seq<Seq<Seq<char>>>, on: Set<Seq<bool>>, n: nat, k: nat) -> bool {
    &&& lv.len() == n + 1
    &&& forall|g: int, i: int|
        0 <= g <= n && 0 <= i < lv[g].len() ==> {
            &&& implicant(#[trigger] lv[g][i], on, n)
            &&& count(lv[g][i], DONT_CARE) == k
            &&& count(lv[g][i], '1') == g
        }
    &&& forall|c: Seq<char>|
        #![trigger implicant(c, on, n)]
        implicant(c, on, n) && count(c, DONT_CARE) == k ==> lv[count(c, '1') as int].contains(c)
    &&& forall|g: int| 0 <= g <= n ==> (#[trigger] lv[g]).no_duplicates()
}

/// The list holds, once each and in order, exactly the prime implicants
/// with fewer than `k` don't-care marks.
pub open spec fn primes_upto(ps: Seq<Seq<char>>, on: Set<Seq<bool>>, n: nat, k: nat) -> bool {
    &&& sorted_strs(ps)
    &&& ps.no_duplicates()
    &&& forall|c: Seq<char>|
        #![trigger ps.contains(c)]
        ps.contains(c) <==> prime(c, on, n) && count(c, DONT_CARE) < k
}

/// The list holds, once each and in order, exactly the prime implicants of
/// the function that is true on `on`.
pub open spec fn prime_cover(ps: Seq<Seq<char>>, on: Set<Seq<bool>>, n: nat) -> bool {
    &&& sorted_strs(ps)
    &&& ps.no_duplicates()
    &&& forall|c: Seq<char>| #![trigger ps.contains(c)] ps.contains(c) <==> prime(c, on, n)
}

/// The literals of a cube: for each variable that it mentions, the name of
/// the variable, negated where the cube holds `0`.
pub open spec fn literals(c: Seq<char>, names: Seq<Seq<char>>) -> Seq<Seq<char>>
    decreases c.len(),
{
    if c.len() == 0 {
        Seq::empty()
    } else {
        let prev = literals(c.drop_last(), names);
        let name = if c.len() <= names.len() {
            names[c.len() - 1]
        } else {
            Seq::empty()
        };
        if c.last() == DONT_CARE {
            prev
        } else if c.last() == '0' {
            prev.push(seq!['!'] + name)
        } else {
            prev.push(name)
        }
    }
}

/// A cube as a product of its literals.
pub open spec fn product_spec(c: Seq<char>, names: Seq<Seq<char>>) -> Seq<char> {
    join_spec(literals(c, names), seq!['.'])
}

/// The products of a list of cubes.
pub open spec fn products(cubes: Seq<Seq<char>>, names: Seq<Seq<char>>) -> Seq<Seq<char>> {
    cubes.map_values(|c: Seq<char>| product_spec(c, names))
}

/// A list of cubes as a sum of products.
pub open spec fn sum_spec(cubes: Seq<Seq<char>>, names: Seq<Seq<char>>) -> Seq<char> {
    join_spec(products(cubes, names), seq!['+'])
}

/// `text` is the sum of the prime implicants of the output `out` of `t` over
/// the inputs `names`, in order.
pub open spec fn cover_text(
    text: Seq<char>,
    t: &Table<char>,
    names: Seq<Seq<char>>,
    out: Seq<char>,
) -> bool {
    exists|cubes: Seq<Seq<char>>|
        #[trigger] prime_cover(cubes, on_set(t, names, out), names.len()) && text == sum_spec(
            cubes,
            names,
        )
}

/// Whether two cubes are the same.
pub fn same_cube(a: &Vec<char>, b: &Vec<char>) -> (r: bool)
    ensures
        r == (a@ == b@),
{
    if a.len() != b.len() {
        return false;
    }
    let mut i: usize = 0;
    while i < a.len()
        invariant
            i <= a.len(),
            a.len() == b.len(),
            forall|k: int| 0 <= k < i ==> a@[k] == b@[k],
        decreases a.len() - i,
    {
        if a[i] != b[i] {
            return false;
        }
        i = i + 1;
    }
    assert(a@ =~= b@);
    true
}

/// Whether a list holds a cube.
pub fn holds_cube(list: &Vec<Vec<char>>, c: &Vec<char>) -> (r: bool)
    ensures
        r == cubes_view(list@).contains(c@),
{
    let mut i: usize = 0;
    while i < list.len()
        invariant
            i <= list.len(),
            forall|k: int| 0 <= k < i ==> cubes_view(list@)[k] != c@,
        decreases list.len() - i,
    {
        if same_cube(&list[i], c) {
            assert(cubes_view(list@)[i as int] == c@);
            return true;
        }
        i = i + 1;
    }
    false
}

/// A copy of a cube.
pub fn copy_cube(c: &Vec<char>) -> (r: Vec<char>)
    ensures
        r@ == c@,
{
    let mut r: Vec<char> = Vec::new();
    let mut i: usize = 0;
    while i < c.len()
        invariant
            i <= c.len(),
            r@ =~= c@.take(i as int),
        decreases c.len() - i,
    {
        r.push(c[i]);
        i = i + 1;
    }
    assert(c@.take(c.len() as int) =~= c@);
    r
}

/// Whether two cubes are of one length and differ in exactly one place.
pub fn differ_by_one_entry(a: &Vec<char>, b: &Vec<char>) -> (r: bool)
    ensures
        r == differ_one(a@, b@),
{
    if a.len() != b.len() {
        return false;
    }
    let mut diff = false;
    let mut at: usize = 0;
    let mut i: usize = 0;
    while i < a.len()
        invariant
            i <= a.len(),
            a.len() == b.len(),
            !diff ==> forall|k: int| 0 <= k < i ==> a@[k] == b@[k],
            diff ==> at < i && a@[at as int] != b@[at as int] && forall|k: int|
                0 <= k < i && k != at ==> a@[k] == b@[k],
        decreases a.len() - i,
    {
        if a[i] != b[i] {
            if diff {
                proof {
                    if differ_one(a@, b@) {
                        let j = choose|j: int| differ_at(a@, b@, j);
                        assert(a@[at as int] != b@[at as int]);
                        assert(a@[i as int] != b@[i as int]);
                    }
                }
                return false;
            }
            diff = true;
            at = i;
        }
        i = i + 1;
    }
    proof {
        if diff {
            assert(differ_at(a@, b@, at as int));
        } else if differ_one(a@, b@) {
            let j = choose|j: int| differ_at(a@, b@, j);
            assert(a@[j] == b@[j]);
        }
    }
    diff
}

/// The cube that keeps what two cubes of one length agree on and is marked
/// don't-care where they differ.
pub fn collate_rows(a: &Vec<char>, b: &Vec<char>) -> (k: Vec<char>)
    requires
        a.len() == b.len(),
    ensures
        k@ == collate(a@, b@),
{
    let mut k: Vec<char> = Vec::new();
    let mut i: usize = 0;
    while i < a.len()
        invariant
            i <= a.len(),
            a.len() == b.len(),
            k@ =~= collate(a@, b@).take(i as int),
        decreases a.len() - i,
    {
        if a[i] == b[i] {
            k.push(a[i]);
        } else {
            k.push(DONT_CARE);
        }
        i = i + 1;
    }
    assert(collate(a@, b@).take(a.len() as int) =~= collate(a@, b@));
    k
}

/// The cube `c` is what row `i` of `curr` and row `j` of `nxt` collate to,
/// and the two differ in one place.
pub open spec fn made_by(c: Seq<char>, curr: Seq<Seq<char>>, nxt: Seq<Seq<char>>, i: int, j: int) -> bool {
    &&& 0 <= i < curr.len()
    &&& 0 <= j < nxt.len()
    &&& differ_one(curr[i], nxt[j])
    &&& c == collate(curr[i], nxt[j])
}

/// Row `i` of `curr` differs in one place from row `j` of `nxt`.
pub open spec fn pairs_with(curr: Seq<Seq<char>>, nxt: Seq<Seq<char>>, i: int, j: int) -> bool {
    &&& 0 <= i < curr.len()
    &&& 0 <= j < nxt.len()
    &&& differ_one(curr[i], nxt[j])
}

/// Combines the rows of two neighbouring groups. Gives, once each, the
/// cubes that a row of the first and a row of the second collate to where
/// the two differ in one place; and tells of each row of either group
/// whether it was combined with a row of the other.
pub fn form_nxt_table_grp_from_rows(curr_grp_rows: &Vec<Vec<char>>, nxt_grp_rows: &Vec<Vec<char>>) -> (r: (
    Vec<Vec<char>>,
    Vec<bool>,
    Vec<bool>,
))
    ensures
        cubes_view(r.0@).no_duplicates(),
        forall|c: Seq<char>|
            #![trigger cubes_view(r.0@).contains(c)]
            cubes_view(r.0@).contains(c) <==> exists|i: int, j: int|
                made_by(c, cubes_view(curr_grp_rows@), cubes_view(nxt_grp_rows@), i, j),
        r.1@.len() == curr_grp_rows@.len(),
        r.2@.len() == nxt_grp_rows@.len(),
        forall|i: int|
            0 <= i < r.1@.len() ==> (#[trigger] r.1@[i] <==> exists|j: int|
                pairs_with(cubes_view(curr_grp_rows@), cubes_view(nxt_grp_rows@), i, j)),
        forall|j: int|
            0 <= j < r.2@.len() ==> (#[trigger] r.2@[j] <==> exists|i: int|
                pairs_with(cubes_view(curr_grp_rows@), cubes_view(nxt_grp_rows@), i, j)),
{
    let ghost curr = cubes_view(curr_grp_rows@);
    let ghost nxt = cubes_view(nxt_grp_rows@);
    let mut nxt_table_rows: Vec<Vec<char>> = Vec::new();
    let mut paired_curr: Vec<bool> = Vec::new();
    let mut paired_nxt: Vec<bool> = Vec::new();
    let mut j0: usize = 0;
    while j0 < nxt_grp_rows.len()
        invariant
            j0 <= nxt_grp_rows.len(),
            paired_nxt@.len() == j0,
            forall|j: int| 0 <= j < j0 ==> !paired_nxt@[j],
        decreases nxt_grp_rows.len() - j0,
    {
        paired_nxt.push(false);
        j0 = j0 + 1;
    }
    let mut i: usize = 0;
    while i < curr_grp_rows.len()
        invariant
            i <= curr_grp_rows.len(),
            curr == cubes_view(curr_grp_rows@),
            nxt == cubes_view(nxt_grp_rows@),
            cubes_view(nxt_table_rows@).no_duplicates(),
            forall|c: Seq<char>|
                #![trigger cubes_view(nxt_table_rows@).contains(c)]
                cubes_view(nxt_table_rows@).contains(c) <==> exists|i1: int, j1: int|
                    i1 < i && made_by(c, curr, nxt, i1, j1),
            paired_curr@.len() == i,
            paired_nxt@.len() == nxt.len(),
            forall|i1: int|
                0 <= i1 < i ==> (#[trigger] paired_curr@[i1] <==> exists|j1: int|
                    pairs_with(curr, nxt, i1, j1)),
            forall|j1: int|
                0 <= j1 < nxt.len() ==> (#[trigger] paired_nxt@[j1] <==> exists|i1: int|
                    i1 < i && pairs_with(curr, nxt, i1, j1)),
        decreases curr_grp_rows.len() - i,
    {
        let mut hit = false;
        let mut j: usize = 0;
        while j < nxt_grp_rows.len()
            invariant
                j <= nxt_grp_rows.len(),
                i < curr_grp_rows.len(),
                curr == cubes_view(curr_grp_rows@),
                nxt == cubes_view(nxt_grp_rows@),
                cubes_view(nxt_table_rows@).no_duplicates(),
                forall|c: Seq<char>|
                    #![trigger cubes_view(nxt_table_rows@).contains(c)]
                    cubes_view(nxt_table_rows@).contains(c) <==> exists|i1: int, j1: int|
                        (i1 < i || (i1 == i && j1 < j)) && made_by(c, curr, nxt, i1, j1),
                paired_nxt@.len() == nxt.len(),
                hit <==> exists|j1: int| j1 < j && pairs_with(curr, nxt, i as int, j1),
                forall|j1: int|
                    0 <= j1 < nxt.len() ==> (#[trigger] paired_nxt@[j1] <==> exists|i1: int|
                        (i1 < i || (i1 == i && j1 < j)) && pairs_with(curr, nxt, i1, j1)),
            decreases nxt_grp_rows.len() - j,
        {
            let ghost rows_before = cubes_view(nxt_table_rows@);
            let ghost flags_before = paired_nxt@;
            let ghost hit_before = hit;
            let differ = differ_by_one_entry(&curr_grp_rows[i], &nxt_grp_rows[j]);
            assert(differ == pairs_with(curr, nxt, i as int, j as int));
            if differ {
                let nxt_entry_vals = collate_rows(&curr_grp_rows[i], &nxt_grp_rows[j]);
                assert(made_by(nxt_entry_vals@, curr, nxt, i as int, j as int));
                if !holds_cube(&nxt_table_rows, &nxt_entry_vals) {
                    nxt_table_rows.push(nxt_entry_vals);
                    assert(cubes_view(nxt_table_rows@) =~= rows_before.push(nxt_entry_vals@));
                }
                hit = true;
                paired_nxt[j] = true;
            }
            proof {
                let rows_after = cubes_view(nxt_table_rows@);
                assert forall|c: Seq<char>|
                    #![trigger rows_after.contains(c)]
                    rows_after.contains(c) <==> exists|i1: int, j1: int|
                        (i1 < i || (i1 == i && j1 < j + 1)) && made_by(c, curr, nxt, i1, j1) by {
                    if rows_after.contains(c) {
                        let x = choose|x: int| 0 <= x < rows_after.len() && rows_after[x] == c;
                        if x < rows_before.len() {
                            assert(rows_before[x] == c);
                            assert(rows_before.contains(c));
                            let (i1, j1) = choose|i1: int, j1: int|
                                (i1 < i || (i1 == i && j1 < j)) && made_by(c, curr, nxt, i1, j1);
                            assert((i1 < i || (i1 == i && j1 < j + 1)) && made_by(
                                c,
                                curr,
                                nxt,
                                i1,
                                j1,
                            ));
                        } else {
                            assert(made_by(c, curr, nxt, i as int, j as int));
                        }
                    }
                    if exists|i1: int, j1: int|
                        (i1 < i || (i1 == i && j1 < j + 1)) && made_by(c, curr, nxt, i1, j1) {
                        let (i1, j1) = choose|i1: int, j1: int|
                            (i1 < i || (i1 == i && j1 < j + 1)) && made_by(c, curr, nxt, i1, j1);
                        if i1 == i && j1 == j {
                            if rows_before.contains(c) {
                                let x = choose|x: int|
                                    0 <= x < rows_before.len() && rows_before[x] == c;
                                assert(rows_after[x] == c);
                            } else {
                                assert(rows_after[rows_after.len() - 1] == c);
                            }
                        } else {
                            assert((i1 < i || (i1 == i && j1 < j)) && made_by(c, curr, nxt, i1, j1));
                            assert(rows_before.contains(c));
                            let x = choose|x: int|
                                0 <= x < rows_before.len() && rows_before[x] == c;
                            assert(rows_after[x] == c);
                        }
                    }
                }
                assert(hit <==> exists|j1: int| j1 < j + 1 && pairs_with(curr, nxt, i as int, j1)) by {
                    if hit {
                        if differ {
                            assert(pairs_with(curr, nxt, i as int, j as int));
                        } else {
                            let j1 = choose|j1: int| j1 < j && pairs_with(curr, nxt, i as int, j1);
                            assert(j1 < j + 1 && pairs_with(curr, nxt, i as int, j1));
                        }
                    }
                    if exists|j1: int| j1 < j + 1 && pairs_with(curr, nxt, i as int, j1) {
                        let j1 = choose|j1: int| j1 < j + 1 && pairs_with(curr, nxt, i as int, j1);
                        if j1 < j {
                            assert(hit_before);
                        }
                    }
                }
                assert forall|j2: int| 0 <= j2 < nxt.len() implies (#[trigger] paired_nxt@[j2]
                    <==> exists|i1: int|
                    (i1 < i || (i1 == i && j2 < j + 1)) && pairs_with(curr, nxt, i1, j2)) by {
                    if paired_nxt@[j2] {
                        if j2 == j && differ {
                            assert(pairs_with(curr, nxt, i as int, j2));
                        } else {
                            assert(flags_before[j2]);
                            let i1 = choose|i1: int|
                                (i1 < i || (i1 == i && j2 < j)) && pairs_with(curr, nxt, i1, j2);
                            assert((i1 < i || (i1 == i && j2 < j + 1)) && pairs_with(
                                curr,
                                nxt,
                                i1,
                                j2,
                            ));
                        }
                    }
                    if exists|i1: int|
                        (i1 < i || (i1 == i && j2 < j + 1)) && pairs_with(curr, nxt, i1, j2) {
                        let i1 = choose|i1: int|
                            (i1 < i || (i1 == i && j2 < j + 1)) && pairs_with(curr, nxt, i1, j2);
                        if i1 == i && j2 == j {
                        } else {
                            assert((i1 < i || (i1 == i && j2 < j)) && pairs_with(curr, nxt, i1, j2));
                            assert(flags_before[j2]);
                        }
                    }
                }
            }
            j = j + 1;
        }
        paired_curr.push(hit);
        proof {
            let rows_now = cubes_view(nxt_table_rows@);
            assert forall|c: Seq<char>|
                #![trigger rows_now.contains(c)]
                rows_now.contains(c) <==> exists|i1: int, j1: int|
                    i1 < i + 1 && made_by(c, curr, nxt, i1, j1) by {
                if rows_now.contains(c) {
                    let (i1, j1) = choose|i1: int, j1: int|
                        (i1 < i || (i1 == i && j1 < nxt.len())) && made_by(c, curr, nxt, i1, j1);
                    assert(i1 < i + 1 && made_by(c, curr, nxt, i1, j1));
                }
                if exists|i1: int, j1: int| i1 < i + 1 && made_by(c, curr, nxt, i1, j1) {
                    let (i1, j1) = choose|i1: int, j1: int|
                        i1 < i + 1 && made_by(c, curr, nxt, i1, j1);
                    assert((i1 < i || (i1 == i && j1 < nxt.len())) && made_by(c, curr, nxt, i1, j1));
                }
            }
            assert forall|i2: int| 0 <= i2 < i + 1 implies (#[trigger] paired_curr@[i2]
                <==> exists|j1: int| pairs_with(curr, nxt, i2, j1)) by {
                if i2 == i {
                    if hit {
                        let j1 = choose|j1: int|
                            j1 < nxt.len() && pairs_with(curr, nxt, i as int, j1);
                        assert(pairs_with(curr, nxt, i2, j1));
                    }
                    if exists|j1: int| pairs_with(curr, nxt, i2, j1) {
                        let j1 = choose|j1: int| pairs_with(curr, nxt, i2, j1);
                        assert(j1 < nxt.len() && pairs_with(curr, nxt, i as int, j1));
                    }
                }
            }
            assert forall|j2: int| 0 <= j2 < nxt.len() implies (#[trigger] paired_nxt@[j2]
                <==> exists|i1: int| i1 < i + 1 && pairs_with(curr, nxt, i1, j2)) by {
                if paired_nxt@[j2] {
                    let i1 = choose|i1: int|
                        (i1 < i || (i1 == i && j2 < nxt.len())) && pairs_with(curr, nxt, i1, j2);
                    assert(i1 < i + 1 && pairs_with(curr, nxt, i1, j2));
                }
                if exists|i1: int| i1 < i + 1 && pairs_with(curr, nxt, i1, j2) {
                    let i1 = choose|i1: int| i1 < i + 1 && pairs_with(curr, nxt, i1, j2);
                    assert((i1 < i || (i1 == i && j2 < nxt.len())) && pairs_with(
                        curr,
                        nxt,
                        i1,
                        j2,
                    ));
                }
            }
        }
        i = i + 1;
    }
    proof {
        let rows_now = cubes_view(nxt_table_rows@);
        assert forall|c: Seq<char>|
            #![trigger rows_now.contains(c)]
            rows_now.contains(c) <==> exists|i1: int, j1: int| made_by(c, curr, nxt, i1, j1) by {
            if rows_now.contains(c) {
                let (i1, j1) = choose|i1: int, j1: int|
                    i1 < curr.len() && made_by(c, curr, nxt, i1, j1);
                assert(made_by(c, curr, nxt, i1, j1));
            }
            if exists|i1: int, j1: int| made_by(c, curr, nxt, i1, j1) {
                let (i1, j1) = choose|i1: int, j1: int| made_by(c, curr, nxt, i1, j1);
                assert(i1 < curr.len() && made_by(c, curr, nxt, i1, j1));
            }
        }
        assert forall|j2: int| 0 <= j2 < nxt.len() implies (#[trigger] paired_nxt@[j2]
            <==> exists|i1: int| pairs_with(curr, nxt, i1, j2)) by {
            if paired_nxt@[j2] {
                let i1 = choose|i1: int| i1 < curr.len() && pairs_with(curr, nxt, i1, j2);
                assert(pairs_with(curr, nxt, i1, j2));
            }
            if exists|i1: int| pairs_with(curr, nxt, i1, j2) {
                let i1 = choose|i1: int| pairs_with(curr, nxt, i1, j2);
                assert(i1 < curr.len() && pairs_with(curr, nxt, i1, j2));
            }
        }
    }
    (nxt_table_rows, paired_curr, paired_nxt)
}

/// Reads the bit in row `i` under the column named `name`.
pub fn read_bit(t: &Table<char>, i: usize, name: &str) -> (r: bool)
    requires
        i < t.rows@.len(),
    ensures
        r == cell_bit(t, i as int, name@),
{
    match t.column_index(name) {
        Some(c) => c < t.rows[i].len() && t.rows[i][c] == '1',
        None => false,
    }
}

/// Whether `a` stands before or with `b` in the order of cubes.
pub fn cube_leq(a: &Vec<char>, b: &Vec<char>) -> (r: bool)
    ensures
        r == lex_leq(a@, b@),
{
    let mut i: usize = 0;
    assert(a@.skip(0) =~= a@);
    assert(b@.skip(0) =~= b@);
    while i < a.len() && i < b.len()
        invariant
            i <= a.len(),
            i <= b.len(),
            lex_leq(a@, b@) == lex_leq(a@.skip(i as int), b@.skip(i as int)),
        decreases a.len() - i,
    {
        proof {
            let ra = a@.skip(i as int);
            let rb = b@.skip(i as int);
            assert(ra[0] == a@[i as int]);
            assert(rb[0] == b@[i as int]);
            assert(ra.skip(1) =~= a@.skip(i + 1));
            assert(rb.skip(1) =~= b@.skip(i + 1));
        }
        if a[i] != b[i] {
            return a[i] < b[i];
        }
        i = i + 1;
    }
    i == a.len()
}

/// Puts a cube at its place in an ordered list of cubes, unless the list
/// holds it already.
pub fn insert_sorted(list: &mut Vec<Vec<char>>, c: Vec<char>)
    requires
        sorted_strs(cubes_view(old(list)@)),
        cubes_view(old(list)@).no_duplicates(),
    ensures
        sorted_strs(cubes_view(final(list)@)),
        cubes_view(final(list)@).no_duplicates(),
        forall|x: Seq<char>|
            #![trigger cubes_view(final(list)@).contains(x)]
            cubes_view(final(list)@).contains(x) <==> cubes_view(old(list)@).contains(x) || x == c@,
{
    let ghost before = cubes_view(list@);
    let mut p: usize = 0;
    while p < list.len() && cube_leq(&list[p], &c)
        invariant
            p <= list.len(),
            *list == *old(list),
            before == cubes_view(list@),
            forall|j: int| 0 <= j < p ==> lex_leq(before[j], c@),
        decreases list.len() - p,
    {
        p = p + 1;
    }
    if p > 0 && same_cube(&list[p - 1], &c) {
        proof {
            assert(before[p - 1] == c@);
            assert forall|x: Seq<char>| before.contains(x) || x == c@ implies before.contains(x) by {
                if x == c@ {
                    assert(before[p - 1] == x);
                }
            }
        }
        return ;
    }
    proof {
        if p < list.len() {
            lemma_lex_total(before[p as int], c@);
        }
        assert forall|j: int| p <= j < before.len() implies lex_leq(c@, before[j]) && before[j]
            != c@ by {
            if j > p {
                lemma_lex_transitive(c@, before[p as int], before[j]);
            }
            if before[j] == c@ {
                // then the search would have passed place p
                assert(lex_leq(before[p as int], before[j]));
            }
        }
        assert forall|j: int| 0 <= j < p implies before[j] != c@ by {
            if before[j] == c@ {
                if j < p - 1 {
                    assert(lex_leq(before[j], before[p - 1]));
                    lemma_lex_antisymmetric(before[p - 1], c@);
                }
            }
        }
    }
    list.insert(p, c);
    proof {
        let after = cubes_view(list@);
        assert(after =~= before.insert(p as int, c@));
        assert forall|i: int, j: int| 0 <= i < j < after.len() implies lex_leq(after[i], after[j]) by {
            if i < p && j > p {
                assert(after[i] == before[i]);
                assert(after[j] == before[j - 1]);
            } else if i < p && j < p {
                assert(after[j] == before[j]);
            } else if i > p {
                assert(after[i] == before[i - 1]);
                assert(after[j] == before[j - 1]);
            } else if i == p {
                assert(after[j] == before[j - 1]);
            }
        }
        assert forall|i: int, j: int| 0 <= i < after.len() && 0 <= j < after.len() && i != j implies after[i]
            != after[j] by {
            let i0 = if i < p { i } else { i - 1 };
            let j0 = if j < p { j } else { j - 1 };
            if i != p && j != p {
                assert(after[i] == before[i0]);
                assert(after[j] == before[j0]);
            } else if i == p {
                assert(after[j] == before[j0]);
            } else {
                assert(after[i] == before[i0]);
            }
        }
        assert forall|x: Seq<char>|
            #![trigger after.contains(x)]
            after.contains(x) <==> before.contains(x) || x == c@ by {
            if after.contains(x) {
                let i = choose|i: int| 0 <= i < after.len() && after[i] == x;
                if i < p {
                    assert(before[i] == x);
                } else if i > p {
                    assert(before[i - 1] == x);
                }
            }
            if before.contains(x) {
                let i = choose|i: int| 0 <= i < before.len() && before[i] == x;
                if i < p {
                    assert(after[i] == x);
                } else {
                    assert(after[i + 1] == x);
                }
            }
            if x == c@ {
                assert(after[p as int] == x);
            }
        }
    }
}

/// Groups the rows on which the output `out` is true by the number of ones
/// among their inputs: group `g` holds, once each, the cubes of the
/// assignments with `g` ones.
pub fn grp_by_ones(t: &Table<char>, inps: &Vec<&str>, out: &str) -> (grps: Vec<Vec<Vec<char>>>)
    requires
        inps@.len() < usize::MAX,
    ensures
        level_ok(
            level_view(grps@),
            on_set(t, names_view(inps@), out@),
            inps@.len() as nat,
            0,
        ),
{
    let ghost names = names_view(inps@);
    let ghost on = on_set(t, names, out@);
    let n = inps.len();
    let mut grps: Vec<Vec<Vec<char>>> = Vec::new();
    let mut g: usize = 0;
    while g <= n
        invariant
            g <= n + 1,
            n < usize::MAX,
            grps@.len() == g,
            forall|h: int| 0 <= h < g ==> (#[trigger] grps@[h])@.len() == 0,
        decreases n + 1 - g,
    {
        grps.push(Vec::new());
        g = g + 1;
    }
    let mut i: usize = 0;
    while i < t.rows.len()
        invariant
            i <= t.rows@.len(),
            n == inps@.len(),
            names == names_view(inps@),
            on == on_set(t, names, out@),
            grps@.len() == n + 1,
            forall|h: int, x: int|
                0 <= h <= n && 0 <= x < level_view(grps@)[h].len() ==> {
                    &&& implicant(#[trigger] level_view(grps@)[h][x], on, n as nat)
                    &&& count(level_view(grps@)[h][x], DONT_CARE) == 0
                    &&& count(level_view(grps@)[h][x], '1') == h
                },
            forall|r: int|
                0 <= r < i && cell_bit(t, r, out@) ==> level_view(grps@)[count(
                    cube_of(#[trigger] minterm(t, r, names)),
                    '1',
                ) as int].contains(cube_of(minterm(t, r, names))),
            forall|h: int| 0 <= h <= n ==> (#[trigger] level_view(grps@)[h]).no_duplicates(),
        decreases t.rows@.len() - i,
    {
        if read_bit(t, i, out) {
            let ghost m = minterm(t, i as int, names);
            let mut irow: Vec<char> = Vec::new();
            let mut num_ones: usize = 0;
            let mut j: usize = 0;
            while j < n
                invariant
                    j <= n,
                    n == inps@.len(),
                    i < t.rows@.len(),
                    names == names_view(inps@),
                    m == minterm(t, i as int, names),
                    irow@ =~= cube_of(m).take(j as int),
                    num_ones == count(irow@, '1'),
                    num_ones <= j,
                decreases n - j,
            {
                let bit = read_bit(t, i, inps[j]);
                let ghost before = irow@;
                if bit {
                    irow.push('1');
                    num_ones = num_ones + 1;
                } else {
                    irow.push('0');
                }
                assert(irow@.drop_last() =~= before);
                j = j + 1;
            }
            proof {
                assert(cube_of(m).take(n as int) =~= cube_of(m));
                lemma_cube_of(m);
                assert(on.contains(m));
                assert forall|m2: Seq<bool>| #[trigger] crate::cubes::covers(
                    cube_of(m),
                    m2,
                ) implies on.contains(m2) by {
                    assert(m2 == m);
                }
            }
            let ghost lv_before = level_view(grps@);
            if !holds_cube(&grps[num_ones], &irow) {
                grps[num_ones].push(irow);
                proof {
                    let lv = level_view(grps@);
                    assert(lv[num_ones as int] =~= lv_before[num_ones as int].push(cube_of(m)));
                    assert forall|h: int| 0 <= h <= n && h != num_ones implies lv[h]
                        == lv_before[h] by {}
                    assert forall|h: int, x: int|
                        0 <= h <= n && 0 <= x < lv[h].len() implies {
                        &&& implicant(#[trigger] lv[h][x], on, n as nat)
                        &&& count(lv[h][x], DONT_CARE) == 0
                        &&& count(lv[h][x], '1') == h
                    } by {
                        if h == num_ones && x == lv[h].len() - 1 {
                        } else {
                            assert(lv[h][x] == lv_before[h][x]);
                        }
                    }
                    assert forall|r: int| 0 <= r < i + 1 && cell_bit(t, r, out@) implies lv[count(
                        cube_of(#[trigger] minterm(t, r, names)),
                        '1',
                    ) as int].contains(cube_of(minterm(t, r, names))) by {
                        let c = cube_of(minterm(t, r, names));
                        let h = count(c, '1') as int;
                        lemma_count_bound(c, '1');
                        if r < i {
                            assert(lv_before[h].contains(c));
                            let x = choose|x: int| 0 <= x < lv_before[h].len() && lv_before[h][x] == c;
                            assert(lv[h][x] == c);
                        } else {
                            assert(lv[h][lv[h].len() - 1] == c);
                        }
                    }
                    assert forall|h: int| 0 <= h <= n implies (#[trigger] lv[h]).no_duplicates() by {
                        if h == num_ones {
                            assert(lv_before[h].no_duplicates());
                        } else {
                            assert(lv[h] == lv_before[h]);
                        }
                    }
                }
            } else {
                proof {
                    assert(level_view(grps@) =~= lv_before);
                }
            }
        }
        i = i + 1;
    }
    proof {
        let lv = level_view(grps@);
        assert forall|c: Seq<char>|
            #![trigger implicant(c, on, n as nat)]
            implicant(c, on, n as nat) && count(c, DONT_CARE) == 0 implies lv[count(c, '1') as int].contains(
            c,
        ) by {
            let m = lemma_full_cube(c, n as nat);
            lemma_cube_of(m);
            lemma_count_bound(c, '1');
            assert(on.contains(m));
            let r = choose|r: int|
                0 <= r < t.rows@.len() && cell_bit(t, r, out@) && #[trigger] minterm(t, r, names)
                    == m;
            assert(lv[count(cube_of(minterm(t, r, names)), '1') as int].contains(
                cube_of(minterm(t, r, names)),
            ));
        }
    }
    grps
}

/// The number of the last group of a level.
pub open spec fn top_group(v: Seq<Vec<Vec<char>>>) -> nat {
    (v.len() - 1) as nat
}

/// Row `i` of group `h` differs in one place from row `j` of the group
/// above.
pub open spec fn pairs_up(lv: Seq<Seq<Seq<char>>>, h: int, i: int, j: int) -> bool {
    pairs_with(lv[h], lv[h + 1], i, j)
}

/// Row `j` of the group below group `h` differs in one place from row `i`
/// of group `h`.
pub open spec fn pairs_down(lv: Seq<Seq<Seq<char>>>, h: int, j: int, i: int) -> bool {
    pairs_with(lv[h - 1], lv[h], j, i)
}

/// The cube `c` is what row `i` of group `h` and row `j` of the group above
/// collate to, and the two differ in one place.
pub open spec fn made_up(c: Seq<char>, lv: Seq<Seq<Seq<char>>>, h: int, i: int, j: int) -> bool {
    made_by(c, lv[h], lv[h + 1], i, j)
}

/// Row `i` of group `h` was combined with no row of a neighbouring group.
pub open spec fn alone(lv: Seq<Seq<Seq<char>>>, n: nat, h: int, i: int) -> bool {
    &&& h < n ==> !exists|j: int| pairs_up(lv, h, i, j)
    &&& h > 0 ==> !exists|j: int| pairs_down(lv, h, j, i)
}

/// The cube `c` is row `i` of group `h`, and that row was combined with no
/// row of a neighbouring group.
pub open spec fn found_alone(lv: Seq<Seq<Seq<char>>>, n: nat, c: Seq<char>, h: int, i: int) -> bool {
    &&& 0 <= h <= n
    &&& 0 <= i < lv[h].len()
    &&& lv[h][i] == c
    &&& alone(lv, n, h, i)
}

/// To differ in one place is symmetric.
pub proof fn lemma_differ_symmetric(a: Seq<char>, b: Seq<char>)
    requires
        differ_one(a, b),
    ensures
        differ_one(b, a),
{
    let j = choose|j: int| differ_at(a, b, j);
    assert(differ_at(b, a, j));
}

/// A row of a level is prime exactly where it was combined with no row of
/// a neighbouring group.
pub proof fn lemma_alone_is_prime(
    lv: Seq<Seq<Seq<char>>>,
    on: Set<Seq<bool>>,
    n: nat,
    k: nat,
    h: int,
    i: int,
)
    requires
        level_ok(lv, on, n, k),
        0 <= h <= n,
        0 <= i < lv[h].len(),
    ensures
        alone(lv, n, h, i) <==> prime(lv[h][i], on, n),
{
    let a = lv[h][i];
    assert(implicant(a, on, n));
    lemma_prime_iff_alone(a, on, n);
    if alone(lv, n, h, i) {
        assert forall|b: Seq<char>|
            implicant(b, on, n) && count(b, DONT_CARE) == count(a, DONT_CARE) implies !#[trigger] differ_one(
            a,
            b,
        ) by {
            if differ_one(a, b) {
                let j = choose|j: int| differ_at(a, b, j);
                lemma_differ_bits(a, b, n, j);
                lemma_count_update(a, j, b[j], '1');
                lemma_count_bound(b, '1');
                let hb = count(b, '1') as int;
                assert(lv[hb].contains(b));
                let x = choose|x: int| 0 <= x < lv[hb].len() && lv[hb][x] == b;
                if a[j] == '0' {
                    assert(hb == h + 1);
                    assert(pairs_up(lv, h, i, x));
                } else {
                    assert(hb == h - 1);
                    lemma_differ_symmetric(a, b);
                    assert(pairs_down(lv, h, x, i));
                }
            }
        }
    }
    if prime(a, on, n) {
        if h < n && exists|j: int| pairs_up(lv, h, i, j) {
            let j = choose|j: int| pairs_up(lv, h, i, j);
            let b = lv[h + 1][j];
            assert(implicant(b, on, n));
            assert(differ_one(a, b));
        }
        if h > 0 && exists|j: int| pairs_down(lv, h, j, i) {
            let j = choose|j: int| pairs_down(lv, h, j, i);
            let b = lv[h - 1][j];
            assert(implicant(b, on, n));
            lemma_differ_symmetric(b, a);
            assert(differ_one(a, b));
        }
    }
}

/// Combining the neighbouring groups of a level gives the next level.
pub proof fn lemma_next_level_ok(
    lv: Seq<Seq<Seq<char>>>,
    nv: Seq<Seq<Seq<char>>>,
    on: Set<Seq<bool>>,
    n: nat,
    k: nat,
)
    requires
        level_ok(lv, on, n, k),
        nv.len() == n + 1,
        nv[n as int].len() == 0,
        forall|h: int| 0 <= h <= n ==> (#[trigger] nv[h]).no_duplicates(),
        forall|h: int, c: Seq<char>|
            #![trigger nv[h].contains(c)]
            0 <= h < n ==> (nv[h].contains(c) <==> exists|i: int, j: int|
                made_up(c, lv, h, i, j)),
    ensures
        level_ok(nv, on, n, k + 1),
{
    assert forall|g: int, x: int| 0 <= g <= n && 0 <= x < nv[g].len() implies {
        &&& implicant(#[trigger] nv[g][x], on, n)
        &&& count(nv[g][x], DONT_CARE) == k + 1
        &&& count(nv[g][x], '1') == g
    } by {
        let c = nv[g][x];
        assert(nv[g].contains(c));
        let (i, j) = choose|i: int, j: int| made_up(c, lv, g, i, j);
        let a = lv[g][i];
        let b = lv[g + 1][j];
        assert(implicant(a, on, n));
        assert(implicant(b, on, n));
        lemma_collate_implicant(a, b, on, n);
    }
    assert forall|c: Seq<char>|
        #![trigger implicant(c, on, n)]
        implicant(c, on, n) && count(c, DONT_CARE) == k + 1 implies nv[count(c, '1') as int].contains(
        c,
    ) by {
        let j = lemma_count_positive(c, DONT_CARE);
        lemma_split_implicant(c, on, n, j);
        let a = c.update(j, '0');
        let b = c.update(j, '1');
        let g = count(c, '1') as int;
        lemma_count_bound(b, '1');
        assert(implicant(a, on, n));
        assert(implicant(b, on, n));
        assert(lv[g].contains(a));
        assert(lv[g + 1].contains(b));
        let x = choose|x: int| 0 <= x < lv[g].len() && lv[g][x] == a;
        let upper = lv[g + 1];
        let y = choose|y: int| 0 <= y < upper.len() && upper[y] == b;
        assert(differ_one(a, b));
        assert(made_up(c, lv, g, x, y));
    }
}

/// Adds the rows of group `g` that were not combined to the prime
/// implicants.
fn collect_alone(
    grp: &Vec<Vec<Vec<char>>>,
    g: usize,
    carry: &Vec<bool>,
    paired: &Vec<bool>,
    primes: &mut Vec<Vec<char>>,
    Ghost(base): Ghost<Seq<Seq<char>>>,
)
    requires
        grp@.len() >= 1,
        g < grp@.len(),
        carry@.len() == grp@[g as int]@.len(),
        paired@.len() == grp@[g as int]@.len(),
        forall|i: int|
            0 <= i < carry@.len() ==> (!#[trigger] carry@[i] && !paired@[i] <==> alone(
                level_view(grp@),
                top_group(grp@),
                g as int,
                i,
            )),
        sorted_strs(cubes_view(old(primes)@)),
        cubes_view(old(primes)@).no_duplicates(),
        forall|c: Seq<char>|
            #![trigger cubes_view(old(primes)@).contains(c)]
            cubes_view(old(primes)@).contains(c) <==> base.contains(c) || exists|h: int, i: int|
                h < g && found_alone(level_view(grp@), top_group(grp@), c, h, i),
    ensures
        sorted_strs(cubes_view(final(primes)@)),
        cubes_view(final(primes)@).no_duplicates(),
        forall|c: Seq<char>|
            #![trigger cubes_view(final(primes)@).contains(c)]
            cubes_view(final(primes)@).contains(c) <==> base.contains(c) || exists|h: int, i: int|
                h < g + 1 && found_alone(level_view(grp@), top_group(grp@), c, h, i),
{
    let ghost lv = level_view(grp@);
    let ghost n = top_group(grp@);
    let mut i: usize = 0;
    while i < grp[g].len()
        invariant
            i <= grp@[g as int]@.len(),
            g < grp@.len(),
            lv == level_view(grp@),
            n == grp@.len() - 1,
            carry@.len() == grp@[g as int]@.len(),
            paired@.len() == grp@[g as int]@.len(),
            forall|i: int|
                0 <= i < carry@.len() ==> (!#[trigger] carry@[i] && !paired@[i] <==> alone(
                    lv,
                    n,
                    g as int,
                    i,
                )),
            sorted_strs(cubes_view(primes@)),
            cubes_view(primes@).no_duplicates(),
            forall|c: Seq<char>|
                #![trigger cubes_view(primes@).contains(c)]
                cubes_view(primes@).contains(c) <==> base.contains(c) || exists|h: int, x: int|
                    (h < g || (h == g && x < i)) && found_alone(lv, n, c, h, x),
        decreases grp@[g as int]@.len() - i,
    {
        let ghost ps_before = cubes_view(primes@);
        let lone = !carry[i] && !paired[i];
        if lone {
            insert_sorted(primes, copy_cube(&grp[g][i]));
        }
        proof {
            let ps = cubes_view(primes@);
            let cur = lv[g as int][i as int];
            assert(cur == grp@[g as int]@[i as int]@);
            assert forall|c: Seq<char>|
                #![trigger ps.contains(c)]
                ps.contains(c) <==> base.contains(c) || exists|h: int, x: int|
                    (h < g || (h == g && x < i + 1)) && found_alone(lv, n, c, h, x) by {
                if ps.contains(c) {
                    if ps_before.contains(c) {
                        if !base.contains(c) {
                            let (h, x) = choose|h: int, x: int|
                                (h < g || (h == g && x < i)) && found_alone(lv, n, c, h, x);
                            assert((h < g || (h == g && x < i + 1)) && found_alone(lv, n, c, h, x));
                        }
                    } else {
                        assert(lone && c == cur);
                        assert(found_alone(lv, n, c, g as int, i as int));
                    }
                }
                if exists|h: int, x: int|
                    (h < g || (h == g && x < i + 1)) && found_alone(lv, n, c, h, x) {
                    let (h, x) = choose|h: int, x: int|
                        (h < g || (h == g && x < i + 1)) && found_alone(lv, n, c, h, x);
                    if h == g && x == i {
                        assert(lone);
                    } else {
                        assert((h < g || (h == g && x < i)) && found_alone(lv, n, c, h, x));
                        assert(ps_before.contains(c));
                    }
                }
            }
        }
        i = i + 1;
    }
    proof {
        let ps = cubes_view(primes@);
        assert forall|c: Seq<char>|
            #![trigger ps.contains(c)]
            ps.contains(c) <==> base.contains(c) || exists|h: int, x: int|
                h < g + 1 && found_alone(lv, n, c, h, x) by {
            if ps.contains(c) && !base.contains(c) {
                let (h, x) = choose|h: int, x: int|
                    (h < g || (h == g && x < lv[g as int].len())) && found_alone(lv, n, c, h, x);
                assert(h < g + 1 && found_alone(lv, n, c, h, x));
            }
            if exists|h: int, x: int| h < g + 1 && found_alone(lv, n, c, h, x) {
                let (h, x) = choose|h: int, x: int| h < g + 1 && found_alone(lv, n, c, h, x);
                assert((h < g || (h == g && x < lv[g as int].len())) && found_alone(lv, n, c, h, x));
            }
        }
    }
}

fn all_false(len: usize) -> (r: Vec<bool>)
    ensures
        r@.len() == len,
        forall|i: int| 0 <= i < len ==> !r@[i],
{
    let mut r: Vec<bool> = Vec::new();
    let mut i: usize = 0;
    while i < len
        invariant
            i <= len,
            r@.len() == i,
            forall|k: int| 0 <= k < i ==> !r@[k],
        decreases len - i,
    {
        r.push(false);
        i = i + 1;
    }
    r
}

/// One round of the reduction: combines the neighbouring groups of level
/// `k` into level `k + 1`, and adds the rows that were not combined, which
/// are the prime implicants with `k` don't-care marks, to `primes`.
fn next_level(
    grp: &Vec<Vec<Vec<char>>>,
    primes: &mut Vec<Vec<char>>,
    Ghost(on): Ghost<Set<Seq<bool>>>,
    Ghost(k): Ghost<nat>,
) -> (next: Vec<Vec<Vec<char>>>)
    requires
        grp@.len() >= 1,
        level_ok(level_view(grp@), on, top_group(grp@), k),
        primes_upto(cubes_view(old(primes)@), on, top_group(grp@), k),
    ensures
        next@.len() == grp@.len(),
        level_ok(level_view(next@), on, top_group(grp@), k + 1),
        primes_upto(cubes_view(final(primes)@), on, top_group(grp@), k + 1),
{
    let ghost lv = level_view(grp@);
    let ghost base = cubes_view(primes@);
    let n = grp.len() - 1;
    let mut next: Vec<Vec<Vec<char>>> = Vec::new();
    let mut carry = all_false(grp[0].len());
    let mut g: usize = 0;
    while g < n
        invariant
            g <= n,
            n == grp@.len() - 1,
            lv == level_view(grp@),
            next@.len() == g,
            carry@.len() == grp@[g as int]@.len(),
            forall|j: int|
                0 <= j < carry@.len() ==> (#[trigger] carry@[j] <==> g > 0 && exists|i: int|
                    pairs_down(lv, g as int, i, j)),
            forall|h: int| 0 <= h < g ==> (#[trigger] level_view(next@)[h]).no_duplicates(),
            forall|h: int, c: Seq<char>|
                #![trigger level_view(next@)[h].contains(c)]
                0 <= h < g ==> (level_view(next@)[h].contains(c) <==> exists|i: int, j: int|
                    made_up(c, lv, h, i, j)),
            sorted_strs(cubes_view(primes@)),
            cubes_view(primes@).no_duplicates(),
            forall|c: Seq<char>|
                #![trigger cubes_view(primes@).contains(c)]
                cubes_view(primes@).contains(c) <==> base.contains(c) || exists|h: int, i: int|
                    h < g && found_alone(lv, n as nat, c, h, i),
        decreases n - g,
    {
        let (rows, paired, paired_nxt) = form_nxt_table_grp_from_rows(&grp[g], &grp[g + 1]);
        let ghost lower = cubes_view(grp@[g as int]@);
        let ghost upper = cubes_view(grp@[g + 1]@);
        proof {
            assert(lower == lv[g as int]);
            assert(upper == lv[g + 1]);
            assert forall|i: int| 0 <= i < carry@.len() implies (!#[trigger] carry@[i]
                && !paired@[i] <==> alone(lv, n as nat, g as int, i)) by {
                if paired@[i] {
                    let j = choose|j: int| pairs_with(lower, upper, i, j);
                    assert(pairs_up(lv, g as int, i, j));
                }
                if exists|j: int| pairs_up(lv, g as int, i, j) {
                    let j = choose|j: int| pairs_up(lv, g as int, i, j);
                    assert(pairs_with(lower, upper, i, j));
                }
            }
        }
        collect_alone(grp, g, &carry, &paired, primes, Ghost(base));
        let ghost nv_before = level_view(next@);
        next.push(rows);
        proof {
            let nv = level_view(next@);
            assert(nv =~= nv_before.push(cubes_view(rows@)));
            assert forall|h: int| 0 <= h < g + 1 implies (#[trigger] nv[h]).no_duplicates() by {
                if h < g {
                    assert(nv[h] == nv_before[h]);
                }
            }
            assert forall|h: int, c: Seq<char>|
                #![trigger nv[h].contains(c)]
                0 <= h < g + 1 implies (nv[h].contains(c) <==> exists|i: int, j: int|
                    made_up(c, lv, h, i, j)) by {
                if h < g {
                    assert(nv[h] == nv_before[h]);
                } else {
                    assert(nv[h] == cubes_view(rows@));
                    if nv[h].contains(c) {
                        let (i, j) = choose|i: int, j: int| made_by(c, lower, upper, i, j);
                        assert(made_up(c, lv, h, i, j));
                    }
                    if exists|i: int, j: int| made_up(c, lv, h, i, j) {
                        let (i, j) = choose|i: int, j: int| made_up(c, lv, h, i, j);
                        assert(made_by(c, lower, upper, i, j));
                    }
                }
            }
        }
        proof {
            let above = g as int + 1;
            assert forall|j: int| 0 <= j < paired_nxt@.len() implies (#[trigger] paired_nxt@[j]
                <==> exists|i: int| pairs_down(lv, above, i, j)) by {
                if paired_nxt@[j] {
                    let i = choose|i: int| pairs_with(lower, upper, i, j);
                    assert(pairs_down(lv, above, i, j));
                }
                if exists|i: int| pairs_down(lv, above, i, j) {
                    let i = choose|i: int| pairs_down(lv, above, i, j);
                    assert(pairs_with(lower, upper, i, j));
                }
            }
        }
        carry = paired_nxt;
        g = g + 1;
    }
    let none = all_false(grp[n].len());
    proof {
        assert forall|i: int| 0 <= i < carry@.len() implies (!#[trigger] carry@[i] && !none@[i]
            <==> alone(lv, n as nat, n as int, i)) by {
            if carry@[i] {
                let j = choose|j: int| pairs_down(lv, n as int, j, i);
                assert(pairs_down(lv, n as int, j, i));
            }
        }
    }
    collect_alone(grp, n, &carry, &none, primes, Ghost(base));
    let ghost nv_before = level_view(next@);
    next.push(Vec::new());
    proof {
        let nv = level_view(next@);
        let ps = cubes_view(primes@);
        assert(cubes_view(Seq::<Vec<char>>::empty()) =~= Seq::<Seq<char>>::empty());
        assert(nv =~= nv_before.push(Seq::empty()));
        assert forall|h: int| 0 <= h <= n implies (#[trigger] nv[h]).no_duplicates() by {
            if h < n {
                assert(nv[h] == nv_before[h]);
            }
        }
        assert forall|h: int, c: Seq<char>|
            #![trigger nv[h].contains(c)]
            0 <= h < n implies (nv[h].contains(c) <==> exists|i: int, j: int|
                made_up(c, lv, h, i, j)) by {
            assert(nv[h] == nv_before[h]);
        }
        lemma_next_level_ok(lv, nv, on, n as nat, k);
        assert forall|c: Seq<char>|
            #![trigger ps.contains(c)]
            ps.contains(c) <==> prime(c, on, n as nat) && count(c, DONT_CARE) < k + 1 by {
            if ps.contains(c) && !base.contains(c) {
                let (h, i) = choose|h: int, i: int|
                    h < n + 1 && found_alone(lv, n as nat, c, h, i);
                lemma_alone_is_prime(lv, on, n as nat, k, h, i);
            }
            if prime(c, on, n as nat) && count(c, DONT_CARE) == k {
                lemma_count_bound(c, '1');
                let h = count(c, '1') as int;
                assert(implicant(c, on, n as nat));
                assert(lv[h].contains(c));
                let i = choose|i: int| 0 <= i < lv[h].len() && lv[h][i] == c;
                lemma_alone_is_prime(lv, on, n as nat, k, h, i);
                assert(h < n + 1 && found_alone(lv, n as nat, c, h, i));
            }
        }
    }
    next
}

/// The prime implicants of the output `out` of `t` over the inputs `inps`,
/// once each and in order.
pub fn prime_implicants(t: &Table<char>, inps: &Vec<&str>, out: &str) -> (primes: Vec<Vec<char>>)
    requires
        inps@.len() < usize::MAX,
    ensures
        prime_cover(
            cubes_view(primes@),
            on_set(t, names_view(inps@), out@),
            inps@.len() as nat,
        ),
{
    let ghost on = on_set(t, names_view(inps@), out@);
    let n = inps.len();
    let mut grp = grp_by_ones(t, inps, out);
    let mut primes: Vec<Vec<char>> = Vec::new();
    let mut k: usize = 0;
    proof {
        assert forall|c: Seq<char>| !(#[trigger] cubes_view(primes@).contains(c)) by {}
    }
    while k <= n
        invariant
            k <= n + 1,
            n == inps@.len(),
            n < usize::MAX,
            grp@.len() == n + 1,
            level_ok(level_view(grp@), on, n as nat, k as nat),
            primes_upto(cubes_view(primes@), on, n as nat, k as nat),
        decreases n + 1 - k,
    {
        let next = next_level(&grp, &mut primes, Ghost(on), Ghost(k as nat));
        grp = next;
        k = k + 1;
    }
    proof {
        let ps = cubes_view(primes@);
        assert forall|c: Seq<char>| #![trigger ps.contains(c)] ps.contains(c) <==> prime(
            c,
            on,
            n as nat,
        ) by {
            if prime(c, on, n as nat) {
                lemma_count_bound(c, DONT_CARE);
            }
        }
    }
    primes
}

/// A cube as a product of its literals: the names of the variables that it
/// mentions, negated with `!` where the cube holds `0`, joined with `.`.
pub fn product_of(c: &Vec<char>, inps: &Vec<&str>) -> (r: String)
    ensures
        r@ == product_spec(c@, names_view(inps@)),
{
    let ghost names = names_view(inps@);
    let mut exp: Vec<String> = Vec::new();
    let mut i: usize = 0;
    proof {
        reveal_strlit("!");
        reveal_strlit(".");
        reveal_strlit("");
        assert(c@.take(0) =~= Seq::<char>::empty());
    }
    while i < c.len()
        invariant
            i <= c.len(),
            names == names_view(inps@),
            texts(exp@) =~= literals(c@.take(i as int), names),
        decreases c.len() - i,
    {
        proof {
            assert(c@.take(i + 1).drop_last() =~= c@.take(i as int));
            reveal_strlit("!");
            reveal_strlit("");
        }
        let name: &str = if i < inps.len() {
            inps[i]
        } else {
            ""
        };
        assert(name@ =~= if i < names.len() {
            names[i as int]
        } else {
            Seq::<char>::empty()
        });
        let ghost before = exp@;
        if c[i] == DONT_CARE {
        } else if c[i] == '0' {
            let mut lit = String::from_str("!");
            lit.append(name);
            assert(lit@ =~= seq!['!'] + name@);
            exp.push(lit);
            assert(texts(exp@) =~= texts(before).push(seq!['!'] + name@));
        } else {
            exp.push(String::from_str(name));
            assert(texts(exp@) =~= texts(before).push(name@));
        }
        i = i + 1;
    }
    proof {
        assert(c@.take(c.len() as int) =~= c@);
        assert(texts(exp@).skip(0) =~= texts(exp@));
        assert("."@ =~= seq!['.']);
    }
    join_from(&exp, 0, ".")
}

/// The sum of the prime implicants of the output `out` of `t` over the
/// inputs `inps`: the products in the order of their cubes, joined with
/// `+`.
pub fn qm_simplify_one(t: &Table<char>, inps: &Vec<&str>, out: &str) -> (r: String)
    requires
        inps@.len() < usize::MAX,
    ensures
        cover_text(r@, t, names_view(inps@), out@),
{
    let ghost names = names_view(inps@);
    let prime_implicants = prime_implicants(t, inps, out);
    let mut prods: Vec<String> = Vec::new();
    let mut i: usize = 0;
    while i < prime_implicants.len()
        invariant
            i <= prime_implicants.len(),
            names == names_view(inps@),
            texts(prods@) =~= products(cubes_view(prime_implicants@), names).take(i as int),
        decreases prime_implicants.len() - i,
    {
        let ghost before = prods@;
        let p = product_of(&prime_implicants[i], inps);
        prods.push(p);
        assert(texts(prods@) =~= texts(before).push(p@));
        i = i + 1;
    }
    proof {
        reveal_strlit("+");
        assert("+"@ =~= seq!['+']);
        let all = products(cubes_view(prime_implicants@), names);
        assert(all.take(prime_implicants.len() as int) =~= all);
        assert(texts(prods@).skip(0) =~= texts(prods@));
    }
    let r = join_from(&prods, 0, "+");
    assert(prime_cover(cubes_view(prime_implicants@), on_set(t, names, out@), names.len())
        && r@ == sum_spec(cubes_view(prime_implicants@), names));
    r
}

/// The sum of prime implicants of each of the outputs `outs` of `t` over
/// the inputs `inps`.
pub fn qm_simplify_many(t: &Table<char>, inps: &Vec<&str>, outs: &Vec<&str>) -> (r: Vec<String>)
    requires
        inps@.len() < usize::MAX,
    ensures
        r@.len() == outs@.len(),
        forall|k: int|
            0 <= k < outs@.len() ==> cover_text(
                (#[trigger] r@[k])@,
                t,
                names_view(inps@),
                outs@[k]@,
            ),
{
    let mut r: Vec<String> = Vec::new();
    let mut k: usize = 0;
    while k < outs.len()
        invariant
            k <= outs.len(),
            inps@.len() < usize::MAX,
            r@.len() == k,
            forall|j: int|
                0 <= j < k ==> cover_text((#[trigger] r@[j])@, t, names_view(inps@), outs@[j]@),
        decreases outs.len() - k,
    {
        r.push(qm_simplify_one(t, inps, outs[k]));
        k = k + 1;
    }
    r
}

} // verus!
