//! The order of relative paths, as `Path` orders them: component by
//! component, each component by its bytes.
use vstd::prelude::*;

verus! {

/// The outcome of comparing two values.
#[derive(Clone, Copy, Debug, PartialEq, Eq, Structural)]
pub enum Order {
    Less,
    Equal,
    Greater,
}

/// `a` comes before `b` byte by byte, a proper prefix first.
pub open spec fn bytes_less(a: Seq<u8>, b: Seq<u8>) -> bool
    decreases a.len(),
{
    if a.len() == 0 {
        b.len() > 0
    } else if b.len() == 0 {
        false
    } else if a[0] != b[0] {
        a[0] < b[0]
    } else {
        bytes_less(a.skip(1), b.skip(1))
    }
}

/// `p` comes before `q` component by component, a proper prefix first.
pub open spec fn path_less(p: Seq<Seq<u8>>, q: Seq<Seq<u8>>) -> bool
    decreases p.len(),
{
    if p.len() == 0 {
        q.len() > 0
    } else if q.len() == 0 {
        false
    } else if p[0] != q[0] {
        bytes_less(p[0], q[0])
    } else {
        path_less(p.skip(1), q.skip(1))
    }
}

/// No byte string comes before itself.
pub proof fn lemma_bytes_irreflexive(a: Seq<u8>)
    ensures
        !bytes_less(a, a),
    decreases a.len(),
{
    if a.len() > 0 {
        lemma_bytes_irreflexive(a.skip(1));
    }
}

/// Of two different byte strings, exactly one comes first.
pub proof fn lemma_bytes_total(a: Seq<u8>, b: Seq<u8>)
    ensures
        a != b ==> (bytes_less(a, b) || bytes_less(b, a)),
        !(bytes_less(a, b) && bytes_less(b, a)),
    decreases a.len(),
{
    if a.len() > 0 && b.len() > 0 && a[0] == b[0] {
        lemma_bytes_total(a.skip(1), b.skip(1));
        if a != b {
            assert(a =~= seq![a[0]] + a.skip(1));
            assert(b =~= seq![b[0]] + b.skip(1));
        }
    } else if a.len() == 0 && b.len() == 0 {
        assert(a =~= b);
    }
}

/// Coming first on byte strings is transitive.
pub proof fn lemma_bytes_transitive(a: Seq<u8>, b: Seq<u8>, c: Seq<u8>)
    requires
        bytes_less(a, b),
        bytes_less(b, c),
    ensures
        bytes_less(a, c),
    decreases a.len(),
{
    if a.len() > 0 && a[0] == b[0] && b[0] == c[0] {
        lemma_bytes_transitive(a.skip(1), b.skip(1), c.skip(1));
    }
}

/// No path comes before itself.
pub proof fn lemma_path_irreflexive(p: Seq<Seq<u8>>)
    ensures
        !path_less(p, p),
    decreases p.len(),
{
    if p.len() > 0 {
        lemma_path_irreflexive(p.skip(1));
    }
}

/// Of two different paths, exactly one comes first.
pub proof fn lemma_path_total(p: Seq<Seq<u8>>, q: Seq<Seq<u8>>)
    ensures
        p != q ==> (path_less(p, q) || path_less(q, p)),
        !(path_less(p, q) && path_less(q, p)),
    decreases p.len(),
{
    if p.len() > 0 && q.len() > 0 {
        if p[0] == q[0] {
            lemma_path_total(p.skip(1), q.skip(1));
            if p != q {
                assert(p =~= seq![p[0]] + p.skip(1));
                assert(q =~= seq![q[0]] + q.skip(1));
            }
        } else {
            lemma_bytes_total(p[0], q[0]);
        }
    } else if p.len() == 0 && q.len() == 0 {
        assert(p =~= q);
    }
}

/// Coming first on paths is transitive.
pub proof fn lemma_path_transitive(p: Seq<Seq<u8>>, q: Seq<Seq<u8>>, r: Seq<Seq<u8>>)
    requires
        path_less(p, q),
        path_less(q, r),
    ensures
        path_less(p, r),
    decreases p.len(),
{
    if p.len() > 0 && q.len() > 0 && r.len() > 0 {
        if p[0] == q[0] && q[0] == r[0] {
            lemma_path_transitive(p.skip(1), q.skip(1), r.skip(1));
        } else if p[0] == q[0] {
            lemma_bytes_total(q[0], r[0]);
        } else if q[0] == r[0] {
            lemma_bytes_total(p[0], q[0]);
        } else {
            lemma_bytes_transitive(p[0], q[0], r[0]);
            lemma_bytes_total(p[0], r[0]);
            if p[0] == r[0] {
                lemma_bytes_total(p[0], q[0]);
            }
        }
    }
}

/// Compares two byte strings.
pub fn order_bytes(a: &[u8], b: &[u8]) -> (o: Order)
    ensures
        o == Order::Less <==> bytes_less(a@, b@),
        o == Order::Equal <==> a@ == b@,
        o == Order::Greater <==> bytes_less(b@, a@),
{
    proof {
        lemma_bytes_total(a@, b@);
        lemma_bytes_irreflexive(a@);
    }
    let mut i: usize = 0;
    assert(a@.skip(0) == a@ && b@.skip(0) == b@);
    while i < a.len() && i < b.len()
        invariant
            i <= a.len(),
            i <= b.len(),
            a@.take(i as int) == b@.take(i as int),
            bytes_less(a@, b@) == bytes_less(a@.skip(i as int), b@.skip(i as int)),
            bytes_less(b@, a@) == bytes_less(b@.skip(i as int), a@.skip(i as int)),
        decreases a.len() - i,
    {
        if a[i] != b[i] {
            assert(a@.skip(i as int)[0] == a[i as int]);
            assert(b@.skip(i as int)[0] == b[i as int]);
            if a[i] < b[i] {
                return Order::Less;
            } else {
                return Order::Greater;
            }
        }
        assert(a@.skip(i as int).skip(1) == a@.skip(i + 1));
        assert(b@.skip(i as int).skip(1) == b@.skip(i + 1));
        assert(a@.take(i + 1) =~= a@.take(i as int).push(a[i as int]));
        assert(b@.take(i + 1) =~= b@.take(i as int).push(b[i as int]));
        i = i + 1;
    }
    if a.len() == b.len() {
        assert(a@ =~= a@.take(i as int));
        assert(b@ =~= b@.take(i as int));
        Order::Equal
    } else if i == a.len() {
        assert(a@.skip(i as int).len() == 0);
        Order::Less
    } else {
        assert(b@.skip(i as int).len() == 0);
        Order::Greater
    }
}

/// Compares two paths given by their components.
pub fn order_paths(p: &[Vec<u8>], q: &[Vec<u8>]) -> (o: Order)
    ensures
        o == Order::Less <==> path_less(components_view(p@), components_view(q@)),
        o == Order::Equal <==> components_view(p@) == components_view(q@),
        o == Order::Greater <==> path_less(components_view(q@), components_view(p@)),
{
    let ghost pv = components_view(p@);
    let ghost qv = components_view(q@);
    proof {
        lemma_path_total(pv, qv);
        lemma_path_irreflexive(pv);
    }
    let mut i: usize = 0;
    assert(pv.skip(0) == pv && qv.skip(0) == qv);
    while i < p.len() && i < q.len()
        invariant
            i <= p.len(),
            i <= q.len(),
            pv == components_view(p@),
            qv == components_view(q@),
            pv.take(i as int) == qv.take(i as int),
            path_less(pv, qv) == path_less(pv.skip(i as int), qv.skip(i as int)),
            path_less(qv, pv) == path_less(qv.skip(i as int), pv.skip(i as int)),
        decreases p.len() - i,
    {
        let o = order_bytes(p[i].as_slice(), q[i].as_slice());
        assert(pv.skip(i as int)[0] == p@[i as int]@);
        assert(qv.skip(i as int)[0] == q@[i as int]@);
        match o {
            Order::Less => {
                return Order::Less;
            },
            Order::Greater => {
                return Order::Greater;
            },
            Order::Equal => {},
        }
        assert(pv.skip(i as int).skip(1) == pv.skip(i + 1));
        assert(qv.skip(i as int).skip(1) == qv.skip(i + 1));
        assert(pv.take(i + 1) =~= pv.take(i as int).push(pv[i as int]));
        assert(qv.take(i + 1) =~= qv.take(i as int).push(qv[i as int]));
        i = i + 1;
    }
    if p.len() == q.len() {
        assert(pv =~= pv.take(i as int));
        assert(qv =~= qv.take(i as int));
        Order::Equal
    } else if i == p.len() {
        assert(pv.skip(i as int).len() == 0);
        Order::Less
    } else {
        assert(qv.skip(i as int).len() == 0);
        Order::Greater
    }
}

/// The components of a path by their bytes.
pub open spec fn components_view(p: Seq<Vec<u8>>) -> Seq<Seq<u8>> {
    p.map_values(|c: Vec<u8>| c@)
}

} // verus!
