use vstd::prelude::*;
use vstd::utf8::encode_utf8;
use vstd::utf8::encode_utf8_decode_utf8;

verus! {

/// Strict lexicographic order on byte strings: a proper prefix comes first.
pub open spec fn bytes_lt(x: Seq<u8>, y: Seq<u8>) -> bool
    decreases x.len(),
{
    if y.len() == 0 {
        false
    } else if x.len() == 0 {
        true
    } else if x[0] != y[0] {
        x[0] < y[0]
    } else {
        bytes_lt(x.drop_first(), y.drop_first())
    }
}

/// Addresses are ordered as Rust orders `String`s: by their UTF-8 bytes.
pub open spec fn address_lt(a: Seq<char>, b: Seq<char>) -> bool {
    bytes_lt(encode_utf8(a), encode_utf8(b))
}

/// The leaderboard order: more experience first, then the smaller address.
pub open spec fn precedes(a: Seq<char>, ta: int, b: Seq<char>, tb: int) -> bool {
    ta > tb || (ta == tb && address_lt(a, b))
}

pub proof fn lemma_bytes_lt_irreflexive(x: Seq<u8>)
    ensures
        !bytes_lt(x, x),
    decreases x.len(),
{
    if x.len() > 0 {
        lemma_bytes_lt_irreflexive(x.drop_first());
    }
}

pub proof fn lemma_bytes_lt_asymmetric(x: Seq<u8>, y: Seq<u8>)
    ensures
        !(bytes_lt(x, y) && bytes_lt(y, x)),
    decreases x.len(),
{
    if x.len() > 0 && y.len() > 0 && x[0] == y[0] {
        lemma_bytes_lt_asymmetric(x.drop_first(), y.drop_first());
    }
}

pub proof fn lemma_bytes_lt_transitive(x: Seq<u8>, y: Seq<u8>, z: Seq<u8>)
    requires
        bytes_lt(x, y),
        bytes_lt(y, z),
    ensures
        bytes_lt(x, z),
    decreases x.len(),
{
    if x.len() > 0 && x[0] == y[0] && y[0] == z[0] {
        lemma_bytes_lt_transitive(x.drop_first(), y.drop_first(), z.drop_first());
    }
}

pub proof fn lemma_bytes_lt_total(x: Seq<u8>, y: Seq<u8>)
    requires
        x != y,
    ensures
        bytes_lt(x, y) || bytes_lt(y, x),
    decreases x.len(),
{
    if x.len() > 0 && y.len() > 0 && x[0] == y[0] {
        if x.drop_first() == y.drop_first() {
            assert(x =~= seq![x[0]] + x.drop_first());
            assert(y =~= seq![y[0]] + y.drop_first());
        } else {
            lemma_bytes_lt_total(x.drop_first(), y.drop_first());
        }
    } else if x.len() == 0 && y.len() == 0 {
        assert(x =~= y);
    }
}

/// `precedes` is a strict total order on (address, total) pairs with distinct addresses.
pub proof fn lemma_precedes_order()
    ensures
        forall|a: Seq<char>, ta: int| !precedes(a, ta, a, ta),
        forall|a: Seq<char>, ta: int, b: Seq<char>, tb: int|
            !(#[trigger] precedes(a, ta, b, tb) && #[trigger] precedes(b, tb, a, ta)),
        forall|a: Seq<char>, ta: int, b: Seq<char>, tb: int, c: Seq<char>, tc: int|
            #[trigger] precedes(a, ta, b, tb) && #[trigger] precedes(b, tb, c, tc) ==> precedes(
                a,
                ta,
                c,
                tc,
            ),
        forall|a: Seq<char>, ta: int, b: Seq<char>, tb: int|
            a != b ==> #[trigger] precedes(a, ta, b, tb) || #[trigger] precedes(b, tb, a, ta),
{
    assert forall|a: Seq<char>, ta: int| !precedes(a, ta, a, ta) by {
        lemma_bytes_lt_irreflexive(encode_utf8(a));
    }
    assert forall|a: Seq<char>, ta: int, b: Seq<char>, tb: int|
        !(#[trigger] precedes(a, ta, b, tb) && #[trigger] precedes(b, tb, a, ta)) by {
        lemma_bytes_lt_asymmetric(encode_utf8(a), encode_utf8(b));
    }
    assert forall|a: Seq<char>, ta: int, b: Seq<char>, tb: int, c: Seq<char>, tc: int|
        #[trigger] precedes(a, ta, b, tb) && #[trigger] precedes(b, tb, c, tc) implies precedes(
            a,
            ta,
            c,
            tc,
        ) by {
        if ta == tb && tb == tc {
            lemma_bytes_lt_transitive(encode_utf8(a), encode_utf8(b), encode_utf8(c));
        }
    }
    assert forall|a: Seq<char>, ta: int, b: Seq<char>, tb: int|
        a != b implies #[trigger] precedes(a, ta, b, tb) || #[trigger] precedes(b, tb, a, ta) by {
        encode_utf8_decode_utf8(a);
        encode_utf8_decode_utf8(b);
        lemma_bytes_lt_total(encode_utf8(a), encode_utf8(b));
    }
}

/// Compares two addresses byte by byte.
pub fn address_lt_exec(a: &String, b: &String) -> (r: bool)
    ensures
        r == address_lt(a@, b@),
{
    let x = a.as_str().as_bytes();
    let y = b.as_str().as_bytes();
    let ghost xs = x@;
    let ghost ys = y@;
    let mut i: usize = 0;
    assert(xs.subrange(0, xs.len() as int) =~= xs);
    assert(ys.subrange(0, ys.len() as int) =~= ys);
    while i < x.len() && i < y.len() && x[i] == y[i]
        invariant
            x@ == xs,
            y@ == ys,
            xs == encode_utf8(a@),
            ys == encode_utf8(b@),
            i <= xs.len(),
            i <= ys.len(),
            bytes_lt(xs, ys) == bytes_lt(
                xs.subrange(i as int, xs.len() as int),
                ys.subrange(i as int, ys.len() as int),
            ),
        decreases xs.len() - i,
    {
        assert(xs.subrange(i as int, xs.len() as int).drop_first() =~= xs.subrange(
            i + 1,
            xs.len() as int,
        ));
        assert(ys.subrange(i as int, ys.len() as int).drop_first() =~= ys.subrange(
            i + 1,
            ys.len() as int,
        ));
        i = i + 1;
    }
    if i < y.len() {
        if i < x.len() {
            x[i] < y[i]
        } else {
            true
        }
    } else {
        false
    }
}

/// Decides `precedes` on concrete values.
pub fn precedes_exec(a: &String, ta: u128, b: &String, tb: u128) -> (r: bool)
    ensures
        r == precedes(a@, ta as int, b@, tb as int),
{
    if ta != tb {
        ta > tb
    } else {
        address_lt_exec(a, b)
    }
}

} // verus!
