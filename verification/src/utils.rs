//! Building formulas out of strings.

use vstd::prelude::*;
use vstd::string::*;

verus! {

/// The characters of each string of a sequence.
pub open spec fn texts(v: Seq<String>) -> Seq<Seq<char>> {
    v.map_values(|s: String| s@)
}

/// The parts written one after the other with `sep` between neighbours.
pub open spec fn join_spec(parts: Seq<Seq<char>>, sep: Seq<char>) -> Seq<char>
    decreases parts.len(),
{
    if parts.len() == 0 {
        Seq::empty()
    } else if parts.len() == 1 {
        parts[0]
    } else {
        join_spec(parts.drop_last(), sep) + sep + parts.last()
    }
}

/// The formula of a gate whose pins carry the formulas `inex` (pin 0 is the
/// clock and takes no part) and whose operator is written `sym`: the
/// operator before a single operand, between two operands, and between all
/// operands inside parentheses otherwise.
pub open spec fn form_expr_spec(inex: Seq<Seq<char>>, sym: Seq<char>) -> Seq<char> {
    if inex.len() == 2 {
        sym + inex[1]
    } else if inex.len() == 3 {
        inex[1] + sym + inex[2]
    } else if inex.len() <= 1 {
        seq!['(', ')']
    } else {
        seq!['('] + join_spec(inex.skip(1), sym) + seq![')']
    }
}

/// Joins the strings of `parts` from index `from` on, with `sep` between
/// neighbours.
pub fn join_from(parts: &Vec<String>, from: usize, sep: &str) -> (r: String)
    requires
        from <= parts.len(),
    ensures
        r@ == join_spec(texts(parts@).skip(from as int), sep@),
{
    let ghost all = texts(parts@).skip(from as int);
    let mut r = String::new();
    let mut i: usize = from;
    while i < parts.len()
        invariant
            from <= i <= parts.len(),
            all == texts(parts@).skip(from as int),
            r@ == join_spec(all.take(i - from), sep@),
        decreases parts.len() - i,
    {
        proof {
            let next = all.take(i - from + 1);
            assert(next.drop_last() =~= all.take(i - from));
            assert(next.last() == parts@[i as int]@);
        }
        if i > from {
            r.append(sep);
        }
        r.append(parts[i].as_str());
        i = i + 1;
    }
    proof {
        assert(all.take(i - from) =~= all);
    }
    r
}

/// Writes the formula of a gate from the formulas on its pins.
pub fn form_expr(inex: &Vec<String>, sym: &String) -> (r: String)
    ensures
        r@ == form_expr_spec(texts(inex@), sym@),
{
    if inex.len() == 2 {
        let mut r = sym.clone();
        r.append(inex[1].as_str());
        r
    } else if inex.len() == 3 {
        let mut r = inex[1].clone();
        r.append(sym.as_str());
        r.append(inex[2].as_str());
        r
    } else if inex.len() <= 1 {
        proof {
            reveal_strlit("()");
        }
        let r = String::from_str("()");
        assert(r@ =~= seq!['(', ')']);
        r
    } else {
        proof {
            reveal_strlit("(");
            reveal_strlit(")");
        }
        let mut r = String::from_str("(");
        let body = join_from(inex, 1, sym.as_str());
        r.append(body.as_str());
        r.append(")");
        assert("("@ =~= seq!['(']);
        assert(")"@ =~= seq![')']);
        r
    }
}

/// The order of strings: character by character, and a string before each
/// of its extensions.
pub open spec fn lex_leq(a: Seq<char>, b: Seq<char>) -> bool
    decreases a.len(),
{
    if a.len() == 0 {
        true
    } else if b.len() == 0 {
        false
    } else if a[0] != b[0] {
        a[0] < b[0]
    } else {
        lex_leq(a.skip(1), b.skip(1))
    }
}

/// Each string stands before or with every later one.
pub open spec fn sorted_strs(s: Seq<Seq<char>>) -> bool {
    forall|i: int, j: int| 0 <= i < j < s.len() ==> lex_leq(s[i], s[j])
}

/// Of two strings one stands before or with the other.
pub proof fn lemma_lex_total(a: Seq<char>, b: Seq<char>)
    ensures
        lex_leq(a, b) || lex_leq(b, a),
    decreases a.len(),
{
    if a.len() > 0 && b.len() > 0 && a[0] == b[0] {
        lemma_lex_total(a.skip(1), b.skip(1));
    }
}

/// The order of strings is transitive.
pub proof fn lemma_lex_transitive(a: Seq<char>, b: Seq<char>, c: Seq<char>)
    requires
        lex_leq(a, b),
        lex_leq(b, c),
    ensures
        lex_leq(a, c),
    decreases a.len(),
{
    if a.len() > 0 && b.len() > 0 && c.len() > 0 && a[0] == b[0] && b[0] == c[0] {
        lemma_lex_transitive(a.skip(1), b.skip(1), c.skip(1));
    }
}

/// Two strings that stand before or with each other are equal.
pub proof fn lemma_lex_antisymmetric(a: Seq<char>, b: Seq<char>)
    requires
        lex_leq(a, b),
        lex_leq(b, a),
    ensures
        a == b,
    decreases a.len(),
{
    if a.len() > 0 && b.len() > 0 {
        lemma_lex_antisymmetric(a.skip(1), b.skip(1));
        assert(a =~= seq![a[0]] + a.skip(1));
        assert(b =~= seq![b[0]] + b.skip(1));
    } else {
        assert(a =~= b);
    }
}

/// Whether `a` stands before or with `b`.
pub fn str_leq(a: &str, b: &str) -> (r: bool)
    ensures
        r == lex_leq(a@, b@),
{
    let la = a.unicode_len();
    let lb = b.unicode_len();
    let mut i: usize = 0;
    assert(a@.skip(0) =~= a@);
    assert(b@.skip(0) =~= b@);
    while i < la && i < lb
        invariant
            i <= la,
            i <= lb,
            la == a@.len(),
            lb == b@.len(),
            lex_leq(a@, b@) == lex_leq(a@.skip(i as int), b@.skip(i as int)),
        decreases la - i,
    {
        let ca = a.get_char(i);
        let cb = b.get_char(i);
        proof {
            let ra = a@.skip(i as int);
            let rb = b@.skip(i as int);
            assert(ra[0] == ca);
            assert(rb[0] == cb);
            assert(ra.skip(1) =~= a@.skip(i + 1));
            assert(rb.skip(1) =~= b@.skip(i + 1));
        }
        if ca != cb {
            return ca < cb;
        }
        i = i + 1;
    }
    i == la
}

} // verus!
