//! Character-level helpers on strings: reading a string's characters and
//! ordering character sequences lexicographically.
use vstd::prelude::*;
use vstd::std_specs::iter::IteratorSpec;

verus! {

broadcast use vstd::string::group_string_axioms;

/// Lexicographic "strictly less than" on character sequences, comparing
/// characters by their code points (the order of `str`'s `Ord`).
pub open spec fn seq_lt(a: Seq<char>, b: Seq<char>) -> bool
    decreases a.len(),
{
    if b.len() == 0 {
        false
    } else if a.len() == 0 {
        true
    } else if (a[0] as int) < (b[0] as int) {
        true
    } else if a[0] == b[0] {
        seq_lt(a.drop_first(), b.drop_first())
    } else {
        false
    }
}

/// The result of comparing two keys.
#[derive(Debug, Clone, Copy, PartialEq, Eq)]
pub enum KeyOrder {
    Less,
    Equal,
    Greater,
}

/// The order of `a` relative to `b` under `seq_lt`.
pub open spec fn seq_order(a: Seq<char>, b: Seq<char>) -> KeyOrder {
    if seq_lt(a, b) {
        KeyOrder::Less
    } else if a == b {
        KeyOrder::Equal
    } else {
        KeyOrder::Greater
    }
}

/// `seq_lt` is irreflexive.
pub proof fn lemma_lt_irreflexive(a: Seq<char>)
    ensures
        !seq_lt(a, a),
    decreases a.len(),
{
    if a.len() > 0 {
        lemma_lt_irreflexive(a.drop_first());
    }
}

/// `seq_lt` is transitive.
pub proof fn lemma_lt_transitive(a: Seq<char>, b: Seq<char>, c: Seq<char>)
    requires
        seq_lt(a, b),
        seq_lt(b, c),
    ensures
        seq_lt(a, c),
    decreases a.len(),
{
    if a.len() > 0 && b.len() > 0 && c.len() > 0 && a[0] == b[0] && b[0] == c[0] {
        lemma_lt_transitive(a.drop_first(), b.drop_first(), c.drop_first());
    }
}

/// Any two sequences are ordered one way or the other, or are equal.
pub proof fn lemma_lt_total(a: Seq<char>, b: Seq<char>)
    ensures
        seq_lt(a, b) || a == b || seq_lt(b, a),
    decreases a.len(),
{
    if a.len() > 0 && b.len() > 0 {
        if a[0] == b[0] {
            lemma_lt_total(a.drop_first(), b.drop_first());
            if a.drop_first() == b.drop_first() {
                assert(a =~= seq![a[0]] + a.drop_first());
                assert(b =~= seq![b[0]] + b.drop_first());
            }
        } else {
            assert((a[0] as int) != (b[0] as int));
        }
    } else if a.len() == 0 && b.len() == 0 {
        assert(a =~= b);
    }
}

/// `seq_lt` is asymmetric.
pub proof fn lemma_lt_asymmetric(a: Seq<char>, b: Seq<char>)
    requires
        seq_lt(a, b),
    ensures
        !seq_lt(b, a),
        a != b,
{
    lemma_lt_irreflexive(a);
    if seq_lt(b, a) {
        lemma_lt_transitive(a, b, a);
    }
}

/// The characters of `s`, in order.
pub fn chars_of(s: &str) -> (r: Vec<char>)
    ensures
        r@ == s@,
{
    let mut r: Vec<char> = Vec::new();
    let mut it = s.chars();
    let ghost total = s@;
    loop
        invariant
            it.remaining() == total.skip(r@.len() as int),
            r@ == total.take(r@.len() as int),
            r@.len() <= total.len(),
            total == s@,
        ensures
            r@ == s@,
        decreases total.len() - r@.len(),
    {
        match it.next() {
            Some(c) => {
                assert(total.skip(r@.len() as int).drop_first() =~= total.skip(r@.len() + 1int));
                r.push(c);
                assert(r@ =~= total.take(r@.len() as int));
            },
            None => {
                assert(r@ =~= total);
                break;
            },
        }
    }
    r
}

/// Compare two character sequences under `seq_lt`.
pub fn compare_chars(a: &Vec<char>, b: &Vec<char>) -> (o: KeyOrder)
    ensures
        o == seq_order(a@, b@),
{
    let mut i: usize = 0;
    assert(a@.skip(0) =~= a@);
    assert(b@.skip(0) =~= b@);
    while i < a.len() && i < b.len()
        invariant
            i <= a@.len(),
            i <= b@.len(),
            a@.take(i as int) == b@.take(i as int),
            seq_order(a@, b@) == seq_order(a@.skip(i as int), b@.skip(i as int)),
        decreases a@.len() - i,
    {
        proof {
            lemma_order_step(a@.skip(i as int), b@.skip(i as int));
            assert(a@.skip(i as int)[0] == a@[i as int]);
            assert(b@.skip(i as int)[0] == b@[i as int]);
        }
        if a[i] < b[i] {
            return KeyOrder::Less;
        } else if b[i] < a[i] {
            proof {
                lemma_order_step(b@.skip(i as int), a@.skip(i as int));
            }
            return KeyOrder::Greater;
        }
        assert(a[i as int] == b[i as int]);
        proof {
            assert(a@.skip(i as int).drop_first() =~= a@.skip(i + 1));
            assert(b@.skip(i as int).drop_first() =~= b@.skip(i + 1));
            assert(a@.take(i + 1) =~= a@.take(i as int).push(a@[i as int]));
            assert(b@.take(i + 1) =~= b@.take(i as int).push(b@[i as int]));
        }
        i = i + 1;
    }
    proof {
        assert(a@ =~= a@.take(i as int) + a@.skip(i as int));
        assert(b@ =~= b@.take(i as int) + b@.skip(i as int));
    }
    if a.len() == b.len() {
        proof {
            assert(a@.skip(i as int) =~= b@.skip(i as int));
            lemma_lt_irreflexive(a@.skip(i as int));
        }
        KeyOrder::Equal
    } else if a.len() < b.len() {
        KeyOrder::Less
    } else {
        assert(a@.skip(i as int) != b@.skip(i as int));
        KeyOrder::Greater
    }
}

/// One step of the comparison: when the heads differ, the order of the
/// sequences is the order of their heads; when they agree, it is the order
/// of the rests.
proof fn lemma_order_step(a: Seq<char>, b: Seq<char>)
    requires
        a.len() > 0,
        b.len() > 0,
    ensures
        (a[0] as int) < (b[0] as int) ==> seq_order(a, b) == KeyOrder::Less && seq_order(b, a)
            == KeyOrder::Greater,
        a[0] == b[0] ==> seq_order(a, b) == seq_order(a.drop_first(), b.drop_first()),
{
    if (a[0] as int) < (b[0] as int) {
        lemma_lt_asymmetric(a, b);
    }
    if a[0] == b[0] {
        if a.drop_first() == b.drop_first() {
            assert(a =~= seq![a[0]] + a.drop_first());
            assert(b =~= seq![b[0]] + b.drop_first());
        } else {
            if a == b {
                assert(a.drop_first() =~= b.drop_first());
            }
        }
    }
}

/// Compare two strings by their characters.
pub fn compare_str(a: &str, b: &str) -> (o: KeyOrder)
    ensures
        o == seq_order(a@, b@),
{
    let va = chars_of(a);
    let vb = chars_of(b);
    compare_chars(&va, &vb)
}

} // verus!
