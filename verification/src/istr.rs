use vstd::prelude::*;

verus! {

/// Field-name string.
///
/// An interning runtime shares one allocation per distinct name so that
/// equality is O(1); the engine's semantics depends only on the bytes, so
/// this library stores the bytes directly and compares them by value.  Two
/// names are equal exactly when their bytes are equal.
#[derive(Debug, PartialEq, Eq)]
pub struct IStr {
    bytes: Vec<u8>,
}

impl View for IStr {
    type V = Seq<u8>;

    closed spec fn view(&self) -> Seq<u8> {
        self.bytes@
    }
}

/// Strict lexicographic order on byte strings: the order `fields` sorts by.
pub open spec fn lex_lt(a: Seq<u8>, b: Seq<u8>) -> bool
    decreases a.len(),
{
    if b.len() == 0 {
        false
    } else if a.len() == 0 {
        true
    } else if a[0] < b[0] {
        true
    } else if a[0] > b[0] {
        false
    } else {
        lex_lt(a.skip(1), b.skip(1))
    }
}

/// `lex_lt` is total: two names are equal or ordered one way.
pub proof fn lemma_lex_total(a: Seq<u8>, b: Seq<u8>)
    ensures
        a == b || lex_lt(a, b) || lex_lt(b, a),
    decreases a.len(),
{
    if b.len() == 0 {
        if a.len() == 0 {
            assert(a =~= b);
        }
    } else if a.len() == 0 {
    } else if a[0] == b[0] {
        lemma_lex_total(a.skip(1), b.skip(1));
        if a.skip(1) == b.skip(1) {
            assert(a =~= b) by {
                assert(a.skip(1).len() == a.len() - 1);
                assert(b.skip(1).len() == b.len() - 1);
                assert(a.len() == b.len());
                assert forall|i: int| 0 <= i < a.len() implies a[i] == b[i] by {
                    if i > 0 {
                        assert(a[i] == a.skip(1)[i - 1]);
                        assert(b[i] == b.skip(1)[i - 1]);
                    }
                }
            }
        }
    }
}

/// `lex_lt` is transitive.
pub proof fn lemma_lex_trans(a: Seq<u8>, b: Seq<u8>, c: Seq<u8>)
    requires
        lex_lt(a, b),
        lex_lt(b, c),
    ensures
        lex_lt(a, c),
    decreases a.len(),
{
    if a.len() == 0 {
    } else {
        if a[0] == b[0] && b[0] == c[0] {
            lemma_lex_trans(a.skip(1), b.skip(1), c.skip(1));
        }
    }
}

impl IStr {
    /// Build a name from its bytes.
    pub fn from_bytes(bytes: Vec<u8>) -> (r: IStr)
        ensures
            r@ == bytes@,
    {
        IStr { bytes }
    }

    /// The bytes of the name.
    pub fn as_bytes(&self) -> (r: &Vec<u8>)
        ensures
            r@ == self@,
    {
        &self.bytes
    }

    /// A copy of the name with the same bytes.
    pub fn duplicate(&self) -> (r: IStr)
        ensures
            r@ == self@,
    {
        let n = self.bytes.len();
        let mut out: Vec<u8> = Vec::new();
        let mut i: usize = 0;
        while i < n
            invariant
                i <= n,
                n == self.bytes@.len(),
                out@ == self.bytes@.take(i as int),
            decreases n - i,
        {
            out.push(self.bytes[i]);
            i = i + 1;
            proof {
                assert(out@ =~= self.bytes@.take(i as int));
            }
        }
        proof {
            assert(self.bytes@.take(n as int) =~= self.bytes@);
        }
        IStr { bytes: out }
    }

    /// Value equality of names.
    pub fn eq_name(&self, other: &IStr) -> (r: bool)
        ensures
            r == (self@ == other@),
    {
        let n = self.bytes.len();
        if n != other.bytes.len() {
            return false;
        }
        let mut i: usize = 0;
        while i < n
            invariant
                i <= n,
                n == self.bytes@.len(),
                n == other.bytes@.len(),
                forall|j: int| 0 <= j < i ==> self.bytes@[j] == other.bytes@[j],
            decreases n - i,
        {
            if self.bytes[i] != other.bytes[i] {
                return false;
            }
            i = i + 1;
        }
        proof {
            assert(self@ =~= other@);
        }
        true
    }


    /// Concatenation of two names' bytes.
    pub fn concat(&self, other: &IStr) -> (r: IStr)
        ensures
            r@ == self@ + other@,
    {
        let mut out = self.duplicate();
        let n = other.bytes.len();
        let mut i: usize = 0;
        proof {
            assert(self.bytes@ + other.bytes@.take(0) =~= self.bytes@);
        }
        while i < n
            invariant
                i <= n,
                n == other.bytes@.len(),
                out.bytes@ == self.bytes@ + other.bytes@.take(i as int),
            decreases n - i,
        {
            out.bytes.push(other.bytes[i]);
            i = i + 1;
            proof {
                assert(out.bytes@ =~= self.bytes@ + other.bytes@.take(i as int));
            }
        }
        proof {
            assert(self.bytes@ + other.bytes@.take(n as int) =~= self.bytes@ + other.bytes@);
        }
        out
    }

    /// Strict lexicographic comparison, agreeing with `lex_lt` on the views.
    pub fn lt_name(&self, other: &IStr) -> (r: bool)
        ensures
            r == lex_lt(self@, other@),
    {
        let an = self.bytes.len();
        let bn = other.bytes.len();
        let mut i: usize = 0;
        proof {
            assert(self@.skip(0) =~= self@);
            assert(other@.skip(0) =~= other@);
        }
        while i < an && i < bn
            invariant
                i <= an,
                i <= bn,
                an == self.bytes@.len(),
                bn == other.bytes@.len(),
                lex_lt(self@, other@) == lex_lt(self@.skip(i as int), other@.skip(i as int)),
            decreases an - i,
        {
            if self.bytes[i] < other.bytes[i] {
                proof {
                    assert(self@.skip(i as int)[0] == self.bytes@[i as int]);
                    assert(other@.skip(i as int)[0] == other.bytes@[i as int]);
                }
                return true;
            }
            if self.bytes[i] > other.bytes[i] {
                proof {
                    assert(self@.skip(i as int)[0] == self.bytes@[i as int]);
                    assert(other@.skip(i as int)[0] == other.bytes@[i as int]);
                }
                return false;
            }
            proof {
                lemma_skip_step(self@, i as int);
                lemma_skip_step(other@, i as int);
                assert(self@.skip(i as int)[0] == self.bytes@[i as int]);
                assert(other@.skip(i as int)[0] == other.bytes@[i as int]);
            }
            i = i + 1;
        }
        proof {
            assert(self@.skip(i as int).len() == an - i);
            assert(other@.skip(i as int).len() == bn - i);
        }
        if i < bn {
            // self is a strict prefix of other
            true
        } else {
            false
        }
    }
}

/// Skipping one more element is skipping from one further on.
proof fn lemma_skip_step(s: Seq<u8>, i: int)
    requires
        0 <= i < s.len(),
    ensures
        s.skip(i).skip(1) =~= s.skip(i + 1),
{
}

} // verus!
