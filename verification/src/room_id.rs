//! Room identifiers: opaque, protocol-assigned byte strings, compared
//! lexicographically where a total tie-break order is needed.

use vstd::prelude::*;

verus! {

/// Lexicographic "less or equal" on byte sequences: the empty sequence is
/// least, otherwise the first differing byte decides, and a proper prefix
/// precedes its extensions.
pub open spec fn lex_le(a: Seq<u8>, b: Seq<u8>) -> bool
    decreases a.len(),
{
    if a.len() == 0 {
        true
    } else if b.len() == 0 {
        false
    } else if a[0] != b[0] {
        a[0] < b[0]
    } else {
        lex_le(a.drop_first(), b.drop_first())
    }
}

pub proof fn lemma_lex_le_total(a: Seq<u8>, b: Seq<u8>)
    ensures
        lex_le(a, b) || lex_le(b, a),
    decreases a.len(),
{
    if a.len() == 0 || b.len() == 0 {
    } else if a[0] != b[0] {
    } else {
        lemma_lex_le_total(a.drop_first(), b.drop_first());
    }
}

pub proof fn lemma_lex_le_trans(a: Seq<u8>, b: Seq<u8>, c: Seq<u8>)
    requires
        lex_le(a, b),
        lex_le(b, c),
    ensures
        lex_le(a, c),
    decreases a.len(),
{
    if a.len() == 0 {
    } else if b.len() == 0 {
    } else if c.len() == 0 {
    } else if a[0] == b[0] && b[0] == c[0] {
        lemma_lex_le_trans(a.drop_first(), b.drop_first(), c.drop_first());
    }
}

pub proof fn lemma_lex_le_antisym(a: Seq<u8>, b: Seq<u8>)
    requires
        lex_le(a, b),
        lex_le(b, a),
    ensures
        a == b,
    decreases a.len(),
{
    if a.len() == 0 {
        assert(b.len() == 0);
        assert(a =~= b);
    } else {
        assert(b.len() > 0);
        assert(a[0] == b[0]);
        lemma_lex_le_antisym(a.drop_first(), b.drop_first());
        assert(a.drop_first().len() == a.len() - 1);
        assert(b.drop_first().len() == b.len() - 1);
        assert(a.len() == b.len());
        assert forall|i: int| 0 <= i < a.len() implies a[i] == b[i] by {
            if i >= 1 {
                assert(a[i] == a.drop_first()[i - 1]);
                assert(b[i] == b.drop_first()[i - 1]);
            }
        }
        assert(a =~= b);
    }
}

/// A well-formed room identifier: non-empty, at most 255 bytes, starting
/// with the sigil `!` and carrying a `:` separator before a server part.
pub open spec fn valid_room_id_bytes(s: Seq<u8>) -> bool {
    &&& 0 < s.len() <= 255
    &&& s[0] == 33u8
    &&& exists|i: int| 1 <= i < s.len() && s[i] == 58u8
}

/// Byte-wise equality of two vectors.
pub fn bytes_eq(a: &Vec<u8>, b: &Vec<u8>) -> (r: bool)
    ensures
        r == (a@ == b@),
{
    if a.len() != b.len() {
        assert(a@ != b@);
        return false;
    }
    let mut i: usize = 0;
    while i < a.len()
        invariant
            i <= a.len(),
            a@.len() == b@.len(),
            forall|j: int| 0 <= j < i ==> a@[j] == b@[j],
        decreases a.len() - i,
    {
        if a[i] != b[i] {
            return false;
        }
        i += 1;
    }
    proof {
        assert(a@ =~= b@);
    }
    true
}

/// Lexicographic comparison of two byte vectors, deciding [`lex_le`].
pub fn bytes_le(a: &Vec<u8>, b: &Vec<u8>) -> (r: bool)
    ensures
        r == lex_le(a@, b@),
{
    let mut i: usize = 0;
    proof {
        assert(a@.skip(0) =~= a@);
        assert(b@.skip(0) =~= b@);
    }
    while i < a.len() && i < b.len()
        invariant
            i <= a.len(),
            i <= b.len(),
            forall|j: int| 0 <= j < i ==> a@[j] == b@[j],
            lex_le(a@, b@) == lex_le(a@.skip(i as int), b@.skip(i as int)),
        decreases a.len() - i,
    {
        let ghost ga = a@.skip(i as int);
        let ghost gb = b@.skip(i as int);
        if a[i] < b[i] {
            assert(lex_le(ga, gb)) by {
                assert(ga[0] == a@[i as int] && gb[0] == b@[i as int]);
            }
            return true;
        }
        if a[i] > b[i] {
            assert(!lex_le(ga, gb)) by {
                assert(ga[0] == a@[i as int] && gb[0] == b@[i as int]);
            }
            return false;
        }
        proof {
            assert(ga[0] == gb[0]);
            assert(ga.drop_first() =~= a@.skip(i + 1));
            assert(gb.drop_first() =~= b@.skip(i + 1));
        }
        i += 1;
    }
    proof {
        let ga = a@.skip(i as int);
        let gb = b@.skip(i as int);
        if i == a.len() {
            assert(ga.len() == 0);
            assert(lex_le(ga, gb));
        } else {
            assert(gb.len() == 0 && ga.len() > 0);
            assert(!lex_le(ga, gb));
        }
    }
    i == a.len()
}

/// A verified element-wise copy of a byte vector.
pub fn copy_bytes(v: &Vec<u8>) -> (r: Vec<u8>)
    ensures
        r@ == v@,
{
    let mut r: Vec<u8> = Vec::new();
    let mut i: usize = 0;
    while i < v.len()
        invariant
            i <= v.len(),
            r@ == v@.take(i as int),
        decreases v.len() - i,
    {
        r.push(v[i]);
        proof {
            assert(v@.take(i + 1) =~= v@.take(i as int).push(v@[i as int]));
        }
        i += 1;
    }
    proof {
        assert(v@.take(v@.len() as int) =~= v@);
    }
    r
}

/// An opaque, globally unique, protocol-assigned room identifier.
///
/// The protocol layer guarantees uniqueness; this crate treats the value as
/// an opaque comparable byte string.
pub struct RoomId {
    bytes: Vec<u8>,
}

impl View for RoomId {
    type V = Seq<u8>;

    closed spec fn view(&self) -> Seq<u8> {
        self.bytes@
    }
}

impl RoomId {
    /// Wraps already protocol-validated identifier bytes.
    pub fn new(bytes: Vec<u8>) -> (r: RoomId)
        ensures
            r@ == bytes@,
    {
        RoomId { bytes }
    }

    /// The identifier's bytes.
    pub fn as_bytes(&self) -> (r: &Vec<u8>)
        ensures
            r@ == self@,
    {
        &self.bytes
    }

    /// A verified copy with the same identifier value.
    pub fn duplicate(&self) -> (r: RoomId)
        ensures
            r@ == self@,
    {
        RoomId { bytes: copy_bytes(&self.bytes) }
    }

    /// Whether the identifier is well-formed ([`valid_room_id_bytes`]).
    pub fn is_valid(&self) -> (r: bool)
        ensures
            r == valid_room_id_bytes(self@),
    {
        if self.bytes.len() == 0 || self.bytes.len() > 255 {
            return false;
        }
        if self.bytes[0] != 33u8 {
            return false;
        }
        let mut i: usize = 1;
        while i < self.bytes.len()
            invariant
                1 <= i <= self.bytes@.len(),
                0 < self@.len() <= 255,
                self@ == self.bytes@,
                self@[0] == 33u8,
                forall|j: int| 1 <= j < i ==> self.bytes@[j] != 58u8,
            decreases self.bytes.len() - i,
        {
            if self.bytes[i] == 58u8 {
                proof {
                    assert(valid_room_id_bytes(self@)) by {
                        assert(0 < self@.len() <= 255);
                        assert(self@[0] == 33u8);
                        assert(exists|j: int| 1 <= j < self@.len() && self@[j] == 58u8) by {
                            assert(1 <= i < self@.len() && self@[i as int] == 58u8);
                        }
                    }
                }
                return true;
            }
            i += 1;
        }
        false
    }

    /// Identifier equality.
    pub fn same_as(&self, other: &RoomId) -> (r: bool)
        ensures
            r == (self@ == other@),
    {
        bytes_eq(&self.bytes, &other.bytes)
    }

    /// Lexicographic comparison of identifiers.
    pub fn le(&self, other: &RoomId) -> (r: bool)
        ensures
            r == lex_le(self@, other@),
    {
        bytes_le(&self.bytes, &other.bytes)
    }
}

} // verus!
