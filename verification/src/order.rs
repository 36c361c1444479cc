//! The order of texts by their bytes, which is the order in which maps keyed
//! by texts list their entries.

use vstd::prelude::*;
use vstd::utf8::*;

verus! {

/// How one text stands to another.
#[derive(Clone, Copy, Debug, PartialEq, Eq, Structural)]
pub enum Relation {
    Before,
    Same,
    After,
}

/// Whether one run of bytes comes strictly before another, at the first place
/// where they differ.
pub open spec fn bytes_before(a: Seq<u8>, b: Seq<u8>) -> bool
    decreases a.len(),
{
    if b.len() == 0 {
        false
    } else if a.len() == 0 {
        true
    } else if a[0] != b[0] {
        a[0] < b[0]
    } else {
        bytes_before(a.drop_first(), b.drop_first())
    }
}

/// Whether one text comes strictly before another.
pub open spec fn before(a: Seq<char>, b: Seq<char>) -> bool {
    bytes_before(encode_utf8(a), encode_utf8(b))
}

pub open spec fn relation(a: Seq<char>, b: Seq<char>) -> Relation {
    if before(a, b) {
        Relation::Before
    } else if a == b {
        Relation::Same
    } else {
        Relation::After
    }
}

proof fn lemma_bytes_irreflexive(a: Seq<u8>)
    ensures
        !bytes_before(a, a),
    decreases a.len(),
{
    if a.len() > 0 {
        lemma_bytes_irreflexive(a.drop_first());
    }
}

proof fn lemma_bytes_transitive(a: Seq<u8>, b: Seq<u8>, c: Seq<u8>)
    requires
        bytes_before(a, b),
        bytes_before(b, c),
    ensures
        bytes_before(a, c),
    decreases a.len(),
{
    if a.len() > 0 && a[0] == b[0] && b[0] == c[0] {
        lemma_bytes_transitive(a.drop_first(), b.drop_first(), c.drop_first());
    }
}

proof fn lemma_bytes_total(a: Seq<u8>, b: Seq<u8>)
    ensures
        a == b || bytes_before(a, b) || bytes_before(b, a),
    decreases a.len(),
{
    if a.len() == 0 && b.len() == 0 {
        assert(a =~= b);
    } else if a.len() > 0 && b.len() > 0 && a[0] == b[0] {
        lemma_bytes_total(a.drop_first(), b.drop_first());
        if a.drop_first() == b.drop_first() {
            assert(a =~= seq![a[0]] + a.drop_first());
            assert(b =~= seq![b[0]] + b.drop_first());
        }
    }
}

/// No text comes before itself.
pub proof fn lemma_before_irreflexive(a: Seq<char>)
    ensures
        !before(a, a),
{
    lemma_bytes_irreflexive(encode_utf8(a));
}

/// The order of texts is transitive.
pub proof fn lemma_before_transitive(a: Seq<char>, b: Seq<char>, c: Seq<char>)
    requires
        before(a, b),
        before(b, c),
    ensures
        before(a, c),
{
    lemma_bytes_transitive(encode_utf8(a), encode_utf8(b), encode_utf8(c));
}

/// Of two different texts exactly one comes before the other.
pub proof fn lemma_before_total(a: Seq<char>, b: Seq<char>)
    ensures
        a == b || before(a, b) || before(b, a),
        before(a, b) ==> !before(b, a) && a != b,
{
    lemma_bytes_total(encode_utf8(a), encode_utf8(b));
    if encode_utf8(a) == encode_utf8(b) {
        encode_utf8_decode_utf8(a);
        encode_utf8_decode_utf8(b);
    }
    lemma_before_irreflexive(a);
    if before(a, b) && before(b, a) {
        lemma_before_transitive(a, b, a);
    }
}

/// How `a` stands to `b`.
pub(crate) fn compare(a: &str, b: &str) -> (r: Relation)
    ensures
        r == relation(a@, b@),
        r is After <==> before(b@, a@),
{
    let x = a.as_bytes();
    let y = b.as_bytes();
    let ghost xs = encode_utf8(a@);
    let ghost ys = encode_utf8(b@);
    let mut i: usize = 0;
    proof {
        lemma_before_total(a@, b@);
        lemma_before_total(b@, a@);
        assert(xs.skip(0) =~= xs);
        assert(ys.skip(0) =~= ys);
    }
    while i < x.len() && i < y.len() && x[i] == y[i]
        invariant
            x@ == xs,
            y@ == ys,
            i <= xs.len(),
            i <= ys.len(),
            xs.take(i as int) == ys.take(i as int),
            bytes_before(xs, ys) == bytes_before(xs.skip(i as int), ys.skip(i as int)),
        decreases x.len() - i,
    {
        proof {
            assert(xs.skip(i as int).drop_first() =~= xs.skip(i + 1));
            assert(ys.skip(i as int).drop_first() =~= ys.skip(i + 1));
            assert(xs.take(i + 1) =~= xs.take(i as int).push(xs[i as int]));
            assert(ys.take(i + 1) =~= ys.take(i as int).push(ys[i as int]));
        }
        i += 1;
    }
    if i < y.len() && (i == x.len() || x[i] < y[i]) {
        Relation::Before
    } else if i == x.len() && i == y.len() {
        proof {
            assert(xs =~= xs.take(i as int));
            assert(ys =~= ys.take(i as int));
            encode_utf8_decode_utf8(a@);
            encode_utf8_decode_utf8(b@);
            lemma_before_irreflexive(a@);
        }
        Relation::Same
    } else {
        Relation::After
    }
}

/// Where two texts have the same bytes up to a place, and there one of them ends
/// or has the lower byte, that one comes before the other.
pub proof fn lemma_first_difference_decides(a: Seq<char>, b: Seq<char>, place: int)
    requires
        0 <= place <= encode_utf8(a).len(),
        place < encode_utf8(b).len(),
        encode_utf8(a).take(place) == encode_utf8(b).take(place),
        place == encode_utf8(a).len() || encode_utf8(a)[place] < encode_utf8(b)[place],
    ensures
        before(a, b),
        relation(a, b) is Before,
        relation(b, a) is After,
{
    lemma_bytes_decided(encode_utf8(a), encode_utf8(b), place);
    lemma_before_total(a, b);
    lemma_before_total(b, a);
}

proof fn lemma_bytes_decided(a: Seq<u8>, b: Seq<u8>, place: int)
    requires
        0 <= place <= a.len(),
        place < b.len(),
        a.take(place) == b.take(place),
        place == a.len() || a[place] < b[place],
    ensures
        bytes_before(a, b),
    decreases place,
{
    if place > 0 {
        assert(a[0] == a.take(place)[0]);
        assert(b[0] == b.take(place)[0]);
        assert(a.drop_first().take(place - 1) =~= a.take(place).drop_first());
        assert(b.drop_first().take(place - 1) =~= b.take(place).drop_first());
        lemma_bytes_decided(a.drop_first(), b.drop_first(), place - 1);
    }
}

/// Two texts stand the same way to each other exactly where they are the same.
pub proof fn lemma_relation_tells(a: Seq<char>, b: Seq<char>)
    ensures
        relation(a, b) is Same <==> a == b,
        relation(a, b) is Before <==> relation(b, a) is After,
{
    lemma_before_total(a, b);
    lemma_before_total(b, a);
    lemma_before_irreflexive(a);
}

} // verus!
