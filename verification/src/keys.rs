//! Totally ordered keys for the sorted containers of this crate.
//!
//! Containers are specified over the *views* of their keys, so two keys with
//! the same view are the same key. Integers are ordered by value and strings
//! by the bytes of their UTF-8 encoding, which is the order std gives them.

use vstd::prelude::*;
use vstd::utf8::*;
use vstd::string::*;

verus! {

/// How one key stands to another in the order of its type.
#[derive(Clone, Copy, Debug)]
pub enum Relation {
    Before,
    Same,
    After,
}

/// A key type with a strict total order on its views.
pub trait Key: View + Sized {
    /// `a` comes strictly before `b`.
    spec fn before(a: Self::V, b: Self::V) -> bool;

    /// `before` is irreflexive, transitive and total.
    proof fn order_laws()
        ensures
            forall|a: Self::V| !#[trigger] Self::before(a, a),
            forall|a: Self::V, b: Self::V, c: Self::V|
                #[trigger] Self::before(a, b) && #[trigger] Self::before(b, c) ==> Self::before(
                    a,
                    c,
                ),
            forall|a: Self::V, b: Self::V| #[trigger] Self::before(a, b) || a == b || Self::before(b, a),
    ;

    /// Compares two keys.
    fn relation(&self, other: &Self) -> (r: Relation)
        ensures
            r is Before <==> Self::before(self@, other@),
            r is Same <==> self@ == other@,
            r is After <==> Self::before(other@, self@),
    ;

    /// A copy of the key.
    fn duplicate(&self) -> (k: Self)
        ensures
            k@ == self@,
    ;
}

impl Key for u8 {
    open spec fn before(a: u8, b: u8) -> bool {
        a < b
    }

    proof fn order_laws() {
    }

    fn relation(&self, other: &Self) -> (r: Relation) {
        if *self < *other {
            Relation::Before
        } else if *self == *other {
            Relation::Same
        } else {
            Relation::After
        }
    }

    fn duplicate(&self) -> (k: Self) {
        *self
    }
}

impl Key for u32 {
    open spec fn before(a: u32, b: u32) -> bool {
        a < b
    }

    proof fn order_laws() {
    }

    fn relation(&self, other: &Self) -> (r: Relation) {
        if *self < *other {
            Relation::Before
        } else if *self == *other {
            Relation::Same
        } else {
            Relation::After
        }
    }

    fn duplicate(&self) -> (k: Self) {
        *self
    }
}

impl Key for u64 {
    open spec fn before(a: u64, b: u64) -> bool {
        a < b
    }

    proof fn order_laws() {
    }

    fn relation(&self, other: &Self) -> (r: Relation) {
        if *self < *other {
            Relation::Before
        } else if *self == *other {
            Relation::Same
        } else {
            Relation::After
        }
    }

    fn duplicate(&self) -> (k: Self) {
        *self
    }
}

/// `a` and `b` agree on their first `i` bytes and `a` is the smaller at `i`:
/// either `a` ends there and `b` goes on, or `a` holds the smaller byte.
pub open spec fn parts_at(a: Seq<u8>, b: Seq<u8>, i: int) -> bool {
    &&& 0 <= i <= a.len()
    &&& i < b.len()
    &&& a.take(i) == b.take(i)
    &&& (i < a.len() ==> a[i] < b[i])
}

/// Lexicographic order on byte strings.
pub open spec fn bytes_before(a: Seq<u8>, b: Seq<u8>) -> bool {
    exists|i: int| parts_at(a, b, i)
}

proof fn lemma_take_take(a: Seq<u8>, i: int, j: int)
    requires
        0 <= j <= i <= a.len(),
    ensures
        a.take(i).take(j) == a.take(j),
{
    assert(a.take(i).take(j) =~= a.take(j));
}

proof fn lemma_parts_prefix(a: Seq<u8>, b: Seq<u8>, i: int, j: int)
    requires
        0 <= j < i <= a.len(),
        i <= b.len(),
        a.take(i) == b.take(i),
    ensures
        a.take(j) == b.take(j),
        a[j] == b[j],
{
    lemma_take_take(a, i, j);
    lemma_take_take(b, i, j);
    assert(a[j] == a.take(i)[j]);
    assert(b[j] == b.take(i)[j]);
}

pub proof fn lemma_bytes_before_irreflexive(a: Seq<u8>)
    ensures
        !bytes_before(a, a),
{
}

pub proof fn lemma_bytes_before_transitive(a: Seq<u8>, b: Seq<u8>, c: Seq<u8>)
    requires
        bytes_before(a, b),
        bytes_before(b, c),
    ensures
        bytes_before(a, c),
{
    let i = choose|i: int| parts_at(a, b, i);
    let j = choose|j: int| parts_at(b, c, j);
    if i < j {
        lemma_parts_prefix(b, c, j, i);
        assert(parts_at(a, c, i));
    } else if i == j {
        assert(parts_at(a, c, i));
    } else {
        lemma_parts_prefix(a, b, i, j);
        assert(parts_at(a, c, j));
    }
}

/// Two byte strings agree up to the first index where they differ or one ends.
pub proof fn lemma_bytes_before_total(a: Seq<u8>, b: Seq<u8>)
    ensures
        bytes_before(a, b) || a == b || bytes_before(b, a),
{
    assert(a.take(0) =~= b.take(0));
    lemma_common_prefix(a, b, 0);
}

proof fn lemma_common_prefix(a: Seq<u8>, b: Seq<u8>, i: int)
    requires
        0 <= i <= a.len(),
        i <= b.len(),
        a.take(i) == b.take(i),
    ensures
        bytes_before(a, b) || a == b || bytes_before(b, a),
    decreases a.len() - i,
{
    if i == a.len() {
        if i == b.len() {
            assert(a.take(i) =~= a);
            assert(b.take(i) =~= b);
        } else {
            assert(parts_at(a, b, i));
        }
    } else if i == b.len() {
        assert(parts_at(b, a, i));
    } else if a[i] < b[i] {
        assert(parts_at(a, b, i));
    } else if b[i] < a[i] {
        assert(parts_at(b, a, i));
    } else {
        assert(a.take(i + 1) =~= a.take(i).push(a[i]));
        assert(b.take(i + 1) =~= b.take(i).push(b[i]));
        lemma_common_prefix(a, b, i + 1);
    }
}

/// Compares two byte strings lexicographically.
pub fn relation_of_bytes(a: &[u8], b: &[u8]) -> (r: Relation)
    ensures
        r is Before <==> bytes_before(a@, b@),
        r is Same <==> a@ == b@,
        r is After <==> bytes_before(b@, a@),
{
    let mut i: usize = 0;
    while i < a.len() && i < b.len()
        invariant
            0 <= i <= a.len(),
            i <= b.len(),
            a@.take(i as int) == b@.take(i as int),
        decreases a.len() - i,
    {
        if a[i] < b[i] {
            proof {
                assert(parts_at(a@, b@, i as int));
                lemma_exclusive(a@, b@);
            }
            return Relation::Before;
        }
        if a[i] > b[i] {
            proof {
                assert(parts_at(b@, a@, i as int));
                lemma_exclusive(b@, a@);
            }
            return Relation::After;
        }
        proof {
            assert(a@.take(i + 1) =~= a@.take(i as int).push(a@[i as int]));
            assert(b@.take(i + 1) =~= b@.take(i as int).push(b@[i as int]));
        }
        i += 1;
    }
    if i < b.len() {
        proof {
            assert(parts_at(a@, b@, i as int));
            lemma_exclusive(a@, b@);
        }
        Relation::Before
    } else if i < a.len() {
        proof {
            assert(parts_at(b@, a@, i as int));
            lemma_exclusive(b@, a@);
        }
        Relation::After
    } else {
        proof {
            assert(a@.take(i as int) =~= a@);
            assert(b@.take(i as int) =~= b@);
            lemma_bytes_before_irreflexive(a@);
        }
        Relation::Same
    }
}

/// A byte string that comes before another is neither equal to it nor after it.
pub proof fn lemma_exclusive(a: Seq<u8>, b: Seq<u8>)
    requires
        bytes_before(a, b),
    ensures
        a != b,
        !bytes_before(b, a),
{
    lemma_bytes_before_irreflexive(a);
    if bytes_before(b, a) {
        lemma_bytes_before_transitive(a, b, a);
    }
}

impl Key for String {
    open spec fn before(a: Seq<char>, b: Seq<char>) -> bool {
        bytes_before(encode_utf8(a), encode_utf8(b))
    }

    proof fn order_laws() {
        assert forall|a: Seq<char>| !#[trigger] Self::before(a, a) by {
            lemma_bytes_before_irreflexive(encode_utf8(a));
        }
        assert forall|a: Seq<char>, b: Seq<char>, c: Seq<char>|
            #[trigger] Self::before(a, b) && #[trigger] Self::before(b, c) implies Self::before(
            a,
            c,
        ) by {
            lemma_bytes_before_transitive(encode_utf8(a), encode_utf8(b), encode_utf8(c));
        }
        assert forall|a: Seq<char>, b: Seq<char>| #[trigger]
            Self::before(a, b) || a == b || Self::before(b, a) by {
            lemma_bytes_before_total(encode_utf8(a), encode_utf8(b));
            if encode_utf8(a) == encode_utf8(b) {
                encode_utf8_decode_utf8(a);
                encode_utf8_decode_utf8(b);
            }
        }
    }

    fn relation(&self, other: &Self) -> (r: Relation) {
        proof {
            encode_utf8_decode_utf8(self@);
            encode_utf8_decode_utf8(other@);
        }
        relation_of_bytes(self.as_str().as_bytes(), other.as_str().as_bytes())
    }

    fn duplicate(&self) -> (k: Self) {
        self.clone()
    }
}

} // verus!
