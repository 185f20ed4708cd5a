//! Participant and token addresses, and the order in which the ledger keeps them.

use vstd::prelude::*;

verus! {

/// `a` and `b` agree on their first `k` bytes, and `a` is the smaller at position `k`:
/// either `a` ends there and `b` goes on, or `a` holds the smaller byte.
pub open spec fn less_at(a: Seq<u8>, b: Seq<u8>, k: int) -> bool {
    &&& 0 <= k <= a.len()
    &&& k < b.len()
    &&& forall|j: int| 0 <= j < k ==> a[j] == b[j]
    &&& (k < a.len() ==> a[k] < b[k])
}

/// Lexicographic order on byte strings: the order of the ledger's keys.
pub open spec fn lex_less(a: Seq<u8>, b: Seq<u8>) -> bool {
    exists|k: int| less_at(a, b, k)
}

/// No address precedes itself.
pub proof fn lemma_lex_irreflexive(a: Seq<u8>)
    ensures
        !lex_less(a, a),
{
    if lex_less(a, a) {
        let k = choose|k: int| less_at(a, a, k);
        assert(less_at(a, a, k));
    }
}

/// Of two addresses at most one precedes the other.
pub proof fn lemma_lex_asymmetric(a: Seq<u8>, b: Seq<u8>)
    requires
        lex_less(a, b),
    ensures
        !lex_less(b, a),
{
    if lex_less(b, a) {
        let k = choose|k: int| less_at(a, b, k);
        let m = choose|m: int| less_at(b, a, m);
        assert(less_at(a, b, k));
        assert(less_at(b, a, m));
        if k < m {
            assert(b[k] == a[k]);
        } else if m < k {
            assert(a[m] == b[m]);
        }
    }
}

/// The order is transitive.
pub proof fn lemma_lex_transitive(a: Seq<u8>, b: Seq<u8>, c: Seq<u8>)
    requires
        lex_less(a, b),
        lex_less(b, c),
    ensures
        lex_less(a, c),
{
    let k = choose|k: int| less_at(a, b, k);
    let m = choose|m: int| less_at(b, c, m);
    assert(less_at(a, b, k));
    assert(less_at(b, c, m));
    let n = if k <= m { k } else { m };
    assert forall|j: int| 0 <= j < n implies a[j] == c[j] by {
        assert(a[j] == b[j]);
        assert(b[j] == c[j]);
    }
    assert(less_at(a, c, n));
}

proof fn lemma_lex_total_from(a: Seq<u8>, b: Seq<u8>, i: int)
    requires
        0 <= i <= a.len(),
        i <= b.len(),
        forall|j: int| 0 <= j < i ==> a[j] == b[j],
    ensures
        lex_less(a, b) || a == b || lex_less(b, a),
    decreases a.len() - i,
{
    if i == a.len() {
        if i == b.len() {
            assert(a =~= b);
        } else {
            assert(less_at(a, b, i));
        }
    } else if i == b.len() {
        assert(less_at(b, a, i));
    } else if a[i] < b[i] {
        assert(less_at(a, b, i));
    } else if b[i] < a[i] {
        assert(less_at(b, a, i));
    } else {
        lemma_lex_total_from(a, b, i + 1);
    }
}

/// Any two addresses are equal or ordered.
pub proof fn lemma_lex_total(a: Seq<u8>, b: Seq<u8>)
    ensures
        lex_less(a, b) || a == b || lex_less(b, a),
{
    lemma_lex_total_from(a, b, 0);
}

/// How two addresses stand to each other in the ledger's order.
#[derive(Clone, Copy, Debug, PartialEq, Eq, Structural)]
pub enum Rank {
    Before,
    Same,
    After,
}

/// An address of a participant or of a token contract, held as the bytes of its
/// text. The ledger orders its records by these bytes.
#[derive(Debug, PartialEq, Eq, Hash)]
pub struct Address {
    pub bytes: Vec<u8>,
}

impl View for Address {
    type V = Seq<u8>;

    open spec fn view(&self) -> Seq<u8> {
        self.bytes@
    }
}

impl Clone for Address {
    fn clone(&self) -> (res: Self)
        ensures
            res@ == self@,
    {
        let mut bytes: Vec<u8> = Vec::new();
        let mut i: usize = 0;
        while i < self.bytes.len()
            invariant
                0 <= i <= self.bytes.len(),
                bytes@ == self.bytes@.subrange(0, i as int),
            decreases self.bytes.len() - i,
        {
            bytes.push(self.bytes[i]);
            i = i + 1;
        }
        assert(self.bytes@.subrange(0, self.bytes@.len() as int) =~= self.bytes@);
        Address { bytes }
    }
}

impl Address {
    /// The address with the given bytes.
    pub fn new(bytes: Vec<u8>) -> (res: Self)
        ensures
            res@ == bytes@,
    {
        Address { bytes }
    }

    /// Where `self` stands relative to `other` in the ledger's order.
    pub fn rank(&self, other: &Address) -> (r: Rank)
        ensures
            r == Rank::Before <==> lex_less(self@, other@),
            r == Rank::Same <==> self@ == other@,
            r == Rank::After <==> lex_less(other@, self@),
    {
        let n = self.bytes.len();
        let m = other.bytes.len();
        let mut i: usize = 0;
        let mut r = Rank::Same;
        while i < n && i < m && r == Rank::Same
            invariant
                n == self.bytes.len(),
                m == other.bytes.len(),
                0 <= i <= n,
                i <= m,
                r == Rank::Same ==> forall|j: int| 0 <= j < i ==> self@[j] == other@[j],
                r == Rank::Before ==> less_at(self@, other@, i as int),
                r == Rank::After ==> less_at(other@, self@, i as int),
            decreases (if r == Rank::Same { 1int } else { 0int }), n - i,
        {
            if self.bytes[i] < other.bytes[i] {
                r = Rank::Before;
            } else if self.bytes[i] > other.bytes[i] {
                r = Rank::After;
            } else {
                i = i + 1;
            }
        }
        if r == Rank::Same {
            if n < m {
                r = Rank::Before;
                assert(less_at(self@, other@, i as int));
            } else if m < n {
                r = Rank::After;
                assert(less_at(other@, self@, i as int));
            } else {
                assert(self@ =~= other@);
            }
        }
        proof {
            lemma_lex_irreflexive(self@);
            if lex_less(self@, other@) {
                lemma_lex_asymmetric(self@, other@);
            }
            if lex_less(other@, self@) {
                lemma_lex_asymmetric(other@, self@);
            }
        }
        r
    }

    /// Whether the two addresses are the same.
    pub fn same(&self, other: &Address) -> (b: bool)
        ensures
            b == (self@ == other@),
    {
        self.rank(other) == Rank::Same
    }
}

} // verus!
