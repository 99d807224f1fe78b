use vstd::prelude::*;

verus! {

/// The value that marks a key as deleted: the bytes `<=>`.
pub open spec fn tombstone() -> Seq<u8> {
    seq![60u8, 61u8, 62u8]
}

/// The marker written twice, as an escaped marker is stored.
pub open spec fn double_tombstone() -> Seq<u8> {
    tombstone() + tombstone()
}

/// Whether `v` begins with the tombstone marker.
pub open spec fn starts_with_tombstone(v: Seq<u8>) -> bool {
    v.len() >= 3 && v.take(3) == tombstone()
}

/// Whether `v` begins with the marker written twice.
pub open spec fn starts_with_double(v: Seq<u8>) -> bool {
    v.len() >= 6 && v.take(6) == double_tombstone()
}

/// How a stored value is written: scanning from the left, every occurrence
/// of the marker is doubled, so that no stored value equals the marker.
pub open spec fn escaped(v: Seq<u8>) -> Seq<u8>
    decreases v.len(),
{
    if v.len() == 0 {
        v
    } else if starts_with_tombstone(v) {
        double_tombstone() + escaped(v.skip(3))
    } else {
        seq![v[0]] + escaped(v.skip(1))
    }
}

/// How a stored value is read back: scanning from the left, every doubled
/// marker becomes one.
pub open spec fn unescaped(v: Seq<u8>) -> Seq<u8>
    decreases v.len(),
{
    if v.len() == 0 {
        v
    } else if starts_with_double(v) {
        tombstone() + unescaped(v.skip(6))
    } else {
        seq![v[0]] + unescaped(v.skip(1))
    }
}

/// Escaping keeps the first byte and never shortens.
proof fn lemma_escaped_first(v: Seq<u8>)
    ensures
        escaped(v).len() >= v.len(),
        v.len() > 0 ==> escaped(v)[0] == v[0],
    decreases v.len(),
{
    if v.len() > 0 {
        if starts_with_tombstone(v) {
            lemma_escaped_first(v.skip(3));
            assert(v[0] == v.take(3)[0]);
        } else {
            lemma_escaped_first(v.skip(1));
        }
    }
}

/// A value that does not begin with the marker escapes to its first byte
/// followed by bytes that do not begin with `=>`, unless the value begins
/// with `<=>`.
proof fn lemma_no_marker_after(c: u8, v: Seq<u8>)
    requires
        !starts_with_tombstone(seq![c] + v),
        c == 60u8,
    ensures
        !(escaped(v).len() >= 2 && escaped(v)[0] == 61u8 && escaped(v)[1] == 62u8),
{
    lemma_escaped_first(v);
    if escaped(v).len() >= 2 && escaped(v)[0] == 61u8 && escaped(v)[1] == 62u8 {
        assert(v.len() > 0);
        assert(v[0] == 61u8);
        assert(!starts_with_tombstone(v)) by {
            if v.len() >= 3 {
                assert(v.take(3)[0] == v[0]);
            }
        }
        assert(escaped(v) == seq![v[0]] + escaped(v.skip(1)));
        let w = v.skip(1);
        lemma_escaped_first(w);
        assert(escaped(w).len() >= 1);
        assert(escaped(w)[0] == 62u8);
        assert(w.len() > 0);
        assert(w[0] == 62u8);
        assert((seq![c] + v).take(3) =~= tombstone());
    }
}

/// Reading back what was written gives the value, and nothing written is
/// ever the marker.
pub proof fn lemma_escape_round_trip(v: Seq<u8>)
    ensures
        unescaped(escaped(v)) == v,
        escaped(v) != tombstone(),
    decreases v.len(),
{
    if v.len() == 0 {
        assert(tombstone().len() == 3);
    } else if starts_with_tombstone(v) {
        let r = v.skip(3);
        lemma_escape_round_trip(r);
        let e = double_tombstone() + escaped(r);
        assert(e.take(6) =~= double_tombstone());
        assert(e.skip(6) =~= escaped(r));
        assert(v =~= tombstone() + r) by {
            assert(v.take(3) == tombstone());
        }
        assert(e.len() >= 6);
    } else {
        let c = v[0];
        let r = v.skip(1);
        lemma_escape_round_trip(r);
        let e = seq![c] + escaped(r);
        assert(e.skip(1) =~= escaped(r));
        assert(v =~= seq![c] + r);
        if c == 60u8 {
            assert(seq![c] + r =~= v);
            lemma_no_marker_after(c, r);
        }
        assert(!starts_with_double(e)) by {
            if starts_with_double(e) {
                assert(e[0] == e.take(6)[0]);
                assert(e[1] == e.take(6)[1]);
                assert(e[2] == e.take(6)[2]);
                assert(e[1] == escaped(r)[0]);
                assert(e[2] == escaped(r)[1]);
            }
        }
        assert(e != tombstone()) by {
            if e == tombstone() {
                assert(e[0] == 60u8);
                assert(escaped(r)[0] == e[1]);
                assert(escaped(r)[1] == e[2]);
            }
        }
    }
}

/// The marker as bytes.
pub fn tombstone_value() -> (r: Vec<u8>)
    ensures
        r@ == tombstone(),
{
    let r: Vec<u8> = vec![60u8, 61u8, 62u8];
    assert(r@ =~= tombstone());
    r
}

/// Whether the bytes are exactly the marker.
pub fn is_tombstone(v: &[u8]) -> (r: bool)
    ensures
        r == (v@ == tombstone()),
{
    if v.len() == 3 && v[0] == 60u8 && v[1] == 61u8 && v[2] == 62u8 {
        assert(v@ =~= tombstone());
        true
    } else {
        false
    }
}

/// Whether the marker starts at `i`.
fn marker_at(v: &Vec<u8>, i: usize) -> (r: bool)
    requires
        i <= v@.len(),
    ensures
        r == starts_with_tombstone(v@.skip(i as int)),
{
    if v.len() - i >= 3 && v[i] == 60u8 && v[i + 1] == 61u8 && v[i + 2] == 62u8 {
        assert(v@.skip(i as int).take(3) =~= tombstone());
        true
    } else {
        proof {
            let w = v@.skip(i as int);
            if w.len() >= 3 {
                assert(w.take(3)[0] == w[0]);
                assert(w.take(3)[1] == w[1]);
                assert(w.take(3)[2] == w[2]);
            }
        }
        false
    }
}

/// Whether the doubled marker starts at `i`.
fn double_at(v: &Vec<u8>, i: usize) -> (r: bool)
    requires
        i <= v@.len(),
    ensures
        r == starts_with_double(v@.skip(i as int)),
{
    if v.len() - i >= 6 && v[i] == 60u8 && v[i + 1] == 61u8 && v[i + 2] == 62u8 && v[i + 3] == 60u8
        && v[i + 4] == 61u8 && v[i + 5] == 62u8 {
        assert(v@.skip(i as int).take(6) =~= double_tombstone());
        true
    } else {
        proof {
            let w = v@.skip(i as int);
            if w.len() >= 6 {
                assert(w.take(6)[0] == w[0]);
                assert(w.take(6)[1] == w[1]);
                assert(w.take(6)[2] == w[2]);
                assert(w.take(6)[3] == w[3]);
                assert(w.take(6)[4] == w[4]);
                assert(w.take(6)[5] == w[5]);
            }
        }
        false
    }
}

/// Escapes a value before it is stored.
pub fn escape_tombstone(val: Vec<u8>) -> (r: Vec<u8>)
    ensures
        r@ == escaped(val@),
{
    let mut r: Vec<u8> = Vec::new();
    let mut i: usize = 0;
    assert(val@.skip(0) =~= val@);
    while i < val.len()
        invariant
            i <= val@.len(),
            r@ + escaped(val@.skip(i as int)) == escaped(val@),
        decreases val@.len() - i,
    {
        let ghost w = val@.skip(i as int);
        if marker_at(&val, i) {
            r.push(60u8);
            r.push(61u8);
            r.push(62u8);
            r.push(60u8);
            r.push(61u8);
            r.push(62u8);
            assert(w.skip(3) =~= val@.skip(i + 3));
            i = i + 3;
        } else {
            r.push(val[i]);
            assert(w.skip(1) =~= val@.skip(i + 1));
            i = i + 1;
        }
        assert(r@ + escaped(val@.skip(i as int)) =~= escaped(val@));
    }
    assert(val@.skip(i as int) =~= Seq::<u8>::empty());
    assert(r@ + Seq::<u8>::empty() =~= r@);
    r
}

/// Undoes [`escape_tombstone`] on a value read back.
pub fn unescape_tombstone(val: Vec<u8>) -> (r: Vec<u8>)
    ensures
        r@ == unescaped(val@),
{
    let mut r: Vec<u8> = Vec::new();
    let mut i: usize = 0;
    assert(val@.skip(0) =~= val@);
    while i < val.len()
        invariant
            i <= val@.len(),
            r@ + unescaped(val@.skip(i as int)) == unescaped(val@),
        decreases val@.len() - i,
    {
        let ghost w = val@.skip(i as int);
        if double_at(&val, i) {
            r.push(60u8);
            r.push(61u8);
            r.push(62u8);
            assert(w.skip(6) =~= val@.skip(i + 6));
            i = i + 6;
        } else {
            r.push(val[i]);
            assert(w.skip(1) =~= val@.skip(i + 1));
            i = i + 1;
        }
        assert(r@ + unescaped(val@.skip(i as int)) =~= unescaped(val@));
    }
    assert(val@.skip(i as int) =~= Seq::<u8>::empty());
    assert(r@ + Seq::<u8>::empty() =~= r@);
    r
}

} // verus!
