//! Archive grammars as data: what a grammar accepts, what it writes, and why
//! reading gives back what was written.

use vstd::prelude::*;
use vstd::utf8::valid_utf8;
use crate::bytes::{be, be_bytes, be_limit, lemma_be, lemma_be_bytes};

verus! {

/// The shape of a run of archive bytes.
pub enum Shape {
    /// Nothing at all.
    Nothing,
    /// A big-endian number of the given width.
    Number(nat),
    /// Exactly so many bytes.
    Fixed(nat),
    /// A length of the given width, then so many bytes.
    Field(nat),
    /// Like a field, holding UTF-8 text.
    Text(nat),
    /// One shape after the other.
    Then(Box<Shape>, Box<Shape>),
    /// A four-byte count, at most the given one, then so many items.
    Many(nat, Box<Shape>),
    /// A byte that says which of two shapes follows.
    Either(u8, Box<Shape>, u8, Box<Shape>),
}

/// What a run of archive bytes says.
pub enum Tree {
    Nothing,
    Number(nat),
    Bytes(Seq<u8>),
    Then(Box<Tree>, Box<Tree>),
    Many(Seq<Tree>),
    Either(u8, Box<Tree>),
}

pub open spec fn then(a: Shape, b: Shape) -> Shape {
    Shape::Then(Box::new(a), Box::new(b))
}

pub open spec fn both(a: Tree, b: Tree) -> Tree {
    Tree::Then(Box::new(a), Box::new(b))
}

/// A flag byte: zero for absent, one for present and followed by `a`.
pub open spec fn maybe(a: Shape) -> Shape {
    Shape::Either(0, Box::new(Shape::Nothing), 1, Box::new(a))
}

pub open spec fn absent() -> Tree {
    Tree::Either(0, Box::new(Tree::Nothing))
}

pub open spec fn present(a: Tree) -> Tree {
    Tree::Either(1, Box::new(a))
}

pub open spec fn flag(b: bool) -> Tree {
    if b {
        present(Tree::Nothing)
    } else {
        absent()
    }
}

/// Whether `t` can be written in the shape `f`.
pub open spec fn conforms(f: Shape, t: Tree) -> bool
    decreases f,
{
    match f {
        Shape::Nothing => t is Nothing,
        Shape::Number(w) => t matches Tree::Number(x) && x < be_limit(w),
        Shape::Fixed(n) => t matches Tree::Bytes(s) && s.len() == n,
        Shape::Field(w) => t matches Tree::Bytes(s) && s.len() < be_limit(w),
        Shape::Text(w) => t matches Tree::Bytes(s) && s.len() < be_limit(w) && valid_utf8(s),
        Shape::Then(a, b) => t matches Tree::Then(x, y) && conforms(*a, *x) && conforms(*b, *y),
        Shape::Many(max, a) => t matches Tree::Many(s) && s.len() <= max && s.len() < be_limit(4)
            && forall|i: int| 0 <= i < s.len() ==> conforms(*a, #[trigger] s[i]),
        Shape::Either(i, a, j, b) => t matches Tree::Either(k, x) && (k == i && conforms(*a, *x)
            || k == j && k != i && conforms(*b, *x)),
    }
}

/// Whether `t` can be written in the shape `f`, but for how many items its lists
/// hold.
pub open spec fn written_as(f: Shape, t: Tree) -> bool
    decreases f,
{
    match f {
        Shape::Nothing => t is Nothing,
        Shape::Number(w) => t matches Tree::Number(x) && x < be_limit(w),
        Shape::Fixed(n) => t matches Tree::Bytes(s) && s.len() == n,
        Shape::Field(w) => t matches Tree::Bytes(s) && s.len() < be_limit(w),
        Shape::Text(w) => t matches Tree::Bytes(s) && s.len() < be_limit(w) && valid_utf8(s),
        Shape::Then(a, b) => t matches Tree::Then(x, y) && written_as(*a, *x) && written_as(*b, *y),
        Shape::Many(max, a) => t matches Tree::Many(s) && s.len() < be_limit(4) && forall|i: int|
            0 <= i < s.len() ==> written_as(*a, #[trigger] s[i]),
        Shape::Either(i, a, j, b) => t matches Tree::Either(k, x) && (k == i && written_as(*a, *x)
            || k == j && k != i && written_as(*b, *x)),
    }
}

/// The bytes of `t` in the shape `f`.
pub open spec fn render(f: Shape, t: Tree) -> Seq<u8>
    decreases f, 0nat,
{
    match (f, t) {
        (Shape::Number(w), Tree::Number(x)) => be_bytes(x, w),
        (Shape::Fixed(n), Tree::Bytes(s)) => s,
        (Shape::Field(w), Tree::Bytes(s)) => be_bytes(s.len(), w) + s,
        (Shape::Text(w), Tree::Bytes(s)) => be_bytes(s.len(), w) + s,
        (Shape::Then(a, b), Tree::Then(x, y)) => render(*a, *x) + render(*b, *y),
        (Shape::Many(max, a), Tree::Many(s)) => be_bytes(s.len(), 4) + render_all(*a, s, s.len()),
        (Shape::Either(i, a, j, b), Tree::Either(k, x)) => seq![k] + (if k == i {
            render(*a, *x)
        } else {
            render(*b, *x)
        }),
        _ => Seq::empty(),
    }
}

/// The bytes of the first `n` items of `s`, each in the shape `f`.
pub open spec fn render_all(f: Shape, s: Seq<Tree>, n: nat) -> Seq<u8>
    decreases f, n + 1,
{
    if n == 0 {
        Seq::empty()
    } else {
        render_all(f, s, (n - 1) as nat) + render(f, s[n - 1])
    }
}

/// What the bytes of `s` from `p` on say in the shape `f`, and where they end.
pub open spec fn parse(f: Shape, s: Seq<u8>, p: int) -> Option<(Tree, int)>
    decreases f, 0nat,
{
    match f {
        Shape::Nothing => Some((Tree::Nothing, p)),
        Shape::Number(w) => if p + w <= s.len() {
            Some((Tree::Number(be(s.subrange(p, p + w))), p + w))
        } else {
            None
        },
        Shape::Fixed(n) => if p + n <= s.len() {
            Some((Tree::Bytes(s.subrange(p, p + n)), p + n))
        } else {
            None
        },
        Shape::Field(w) => parse_field(w, s, p),
        Shape::Text(w) => match parse_field(w, s, p) {
            Some((Tree::Bytes(b), q)) if valid_utf8(b) => Some((Tree::Bytes(b), q)),
            _ => None,
        },
        Shape::Then(a, b) => match parse(*a, s, p) {
            Some((x, q)) => match parse(*b, s, q) {
                Some((y, r)) => Some((both(x, y), r)),
                None => None,
            },
            None => None,
        },
        Shape::Many(max, a) => if p + 4 <= s.len() && be(s.subrange(p, p + 4)) <= max {
            match parse_all(*a, be(s.subrange(p, p + 4)), s, p + 4) {
                Some((x, q)) => Some((Tree::Many(x), q)),
                None => None,
            }
        } else {
            None
        },
        Shape::Either(i, a, j, b) => if p + 1 > s.len() {
            None
        } else if s[p] == i {
            match parse(*a, s, p + 1) {
                Some((x, q)) => Some((Tree::Either(i, Box::new(x)), q)),
                None => None,
            }
        } else if s[p] == j {
            match parse(*b, s, p + 1) {
                Some((x, q)) => Some((Tree::Either(j, Box::new(x)), q)),
                None => None,
            }
        } else {
            None
        },
    }
}

pub open spec fn parse_field(w: nat, s: Seq<u8>, p: int) -> Option<(Tree, int)> {
    if p + w > s.len() {
        None
    } else {
        let n = be(s.subrange(p, p + w));
        if p + w + n > s.len() {
            None
        } else {
            Some((Tree::Bytes(s.subrange(p + w, p + w + n)), p + w + n))
        }
    }
}

/// The first `n` items from `p` on.
pub open spec fn parse_all(f: Shape, n: nat, s: Seq<u8>, p: int) -> Option<(Seq<Tree>, int)>
    decreases f, n + 1,
{
    if n == 0 {
        Some((Seq::empty(), p))
    } else {
        match parse_all(f, (n - 1) as nat, s, p) {
            Some((x, q)) => match parse(f, s, q) {
                Some((y, r)) => Some((x.push(y), r)),
                None => None,
            },
            None => None,
        }
    }
}

/// Reading gives back what was written, wherever it stands.
pub proof fn parse_of_render(f: Shape, t: Tree, s: Seq<u8>, p: int)
    requires
        conforms(f, t),
        0 <= p,
        p + render(f, t).len() <= s.len(),
        s.subrange(p, p + render(f, t).len()) == render(f, t),
    ensures
        parse(f, s, p) == Some((t, p + render(f, t).len() as int)),
    decreases f, 0nat,
{
    let r = render(f, t);
    let w = s.subrange(p, p + r.len());
    match (f, t) {
        (Shape::Nothing, Tree::Nothing) => {},
        (Shape::Number(n), Tree::Number(x)) => {
            lemma_be_bytes(x, n);
        },
        (Shape::Fixed(n), Tree::Bytes(b)) => {},
        (Shape::Field(n), Tree::Bytes(b)) => {
            field_of_render(n, b, s, p);
        },
        (Shape::Text(n), Tree::Bytes(b)) => {
            field_of_render(n, b, s, p);
        },
        (Shape::Then(a, b), Tree::Then(x, y)) => {
            let ra = render(*a, *x);
            let rb = render(*b, *y);
            assert(s.subrange(p, p + ra.len()) =~= ra) by {
                assert forall|i: int| 0 <= i < ra.len() implies s[p + i] == ra[i] by {
                    assert(w[i] == r[i]);
                }
            }
            assert(s.subrange(p + ra.len(), p + ra.len() + rb.len()) =~= rb) by {
                assert forall|i: int| 0 <= i < rb.len() implies s[p + ra.len() + i] == rb[i] by {
                    assert(w[ra.len() + i] == r[ra.len() + i]);
                }
            }
            parse_of_render(*a, *x, s, p);
            parse_of_render(*b, *y, s, p + ra.len());
        },
        (Shape::Many(max, a), Tree::Many(x)) => {
            lemma_be_bytes(x.len(), 4);
            let head = be_bytes(x.len(), 4);
            let body = render_all(*a, x, x.len());
            assert(s.subrange(p, p + 4) =~= head) by {
                assert forall|i: int| 0 <= i < 4 implies s[p + i] == head[i] by {
                    assert(w[i] == r[i]);
                }
            }
            assert(s.subrange(p + 4, p + 4 + body.len()) =~= body) by {
                assert forall|i: int| 0 <= i < body.len() implies s[p + 4 + i] == body[i] by {
                    assert(w[4 + i] == r[4 + i]);
                }
            }
            all_of_render(*a, x, x.len(), s, p + 4);
            assert(x.take(x.len() as int) =~= x);
        },
        (Shape::Either(i, a, j, b), Tree::Either(k, x)) => {
            let rest = if k == i { render(*a, *x) } else { render(*b, *x) };
            assert(r =~= seq![k] + rest);
            assert(s[p] == k) by {
                assert(w[0] == r[0]);
            }
            assert(s.subrange(p + 1, p + 1 + rest.len()) =~= rest) by {
                assert forall|m: int| 0 <= m < rest.len() implies s[p + 1 + m] == rest[m] by {
                    assert(w[1 + m] == r[1 + m]);
                }
            }
            if k == i {
                parse_of_render(*a, *x, s, p + 1);
            } else {
                parse_of_render(*b, *x, s, p + 1);
            }
        },
        _ => {},
    }
}

proof fn field_of_render(n: nat, b: Seq<u8>, s: Seq<u8>, p: int)
    requires
        b.len() < be_limit(n),
        0 <= p,
        p + (be_bytes(b.len(), n) + b).len() <= s.len(),
        s.subrange(p, p + (be_bytes(b.len(), n) + b).len()) == be_bytes(b.len(), n) + b,
    ensures
        (be_bytes(b.len(), n) + b).len() == n + b.len(),
        parse_field(n, s, p) == Some((Tree::Bytes(b), (p + n + b.len()) as int)),
{
    lemma_be_bytes(b.len(), n);
    let head = be_bytes(b.len(), n);
    let w = s.subrange(p, p + (head + b).len());
    assert(s.subrange(p, p + n) =~= head) by {
        assert forall|i: int| 0 <= i < n implies s[p + i] == head[i] by {
            assert(w[i] == (head + b)[i]);
        }
    }
    assert(s.subrange(p + n, p + n + b.len()) =~= b) by {
        assert forall|i: int| 0 <= i < b.len() implies s[p + n + i] == b[i] by {
            assert(w[n + i] == (head + b)[n + i]);
        }
    }
}

proof fn all_of_render(f: Shape, x: Seq<Tree>, n: nat, s: Seq<u8>, p: int)
    requires
        n <= x.len(),
        forall|i: int| 0 <= i < x.len() ==> conforms(f, #[trigger] x[i]),
        0 <= p,
        p + render_all(f, x, n).len() <= s.len(),
        s.subrange(p, p + render_all(f, x, n).len()) == render_all(f, x, n),
    ensures
        parse_all(f, n, s, p) == Some((x.take(n as int), p + render_all(f, x, n).len() as int)),
    decreases f, n + 1,
{
    if n == 0 {
        assert(x.take(0) =~= Seq::empty());
    } else {
        let front = render_all(f, x, (n - 1) as nat);
        let back = render(f, x[n - 1]);
        let r = front + back;
        let w = s.subrange(p, p + r.len());
        assert(s.subrange(p, p + front.len()) =~= front) by {
            assert forall|i: int| 0 <= i < front.len() implies s[p + i] == front[i] by {
                assert(w[i] == r[i]);
            }
        }
        assert(s.subrange(p + front.len(), p + front.len() + back.len()) =~= back) by {
            assert forall|i: int| 0 <= i < back.len() implies s[p + front.len() + i] == back[i] by {
                assert(w[front.len() + i] == r[front.len() + i]);
            }
        }
        all_of_render(f, x, (n - 1) as nat, s, p);
        parse_of_render(f, x[n - 1], s, p + front.len());
        assert(x.take(n as int) =~= x.take(n - 1).push(x[n - 1]));
    }
}

/// What was written reads as itself or not at all: nothing but a list that is too
/// long keeps it from being read.
pub proof fn reads_as_written(f: Shape, t: Tree, s: Seq<u8>, p: int)
    requires
        written_as(f, t),
        0 <= p,
        p + render(f, t).len() <= s.len(),
        s.subrange(p, p + render(f, t).len()) == render(f, t),
        parse(f, s, p) is Some,
    ensures
        conforms(f, t),
        parse(f, s, p) == Some((t, p + render(f, t).len() as int)),
    decreases f, 0nat,
{
    let r = render(f, t);
    let w = s.subrange(p, p + r.len());
    match (f, t) {
        (Shape::Then(a, b), Tree::Then(x, y)) => {
            let ra = render(*a, *x);
            let rb = render(*b, *y);
            assert(s.subrange(p, p + ra.len()) =~= ra) by {
                assert forall|i: int| 0 <= i < ra.len() implies s[p + i] == ra[i] by {
                    assert(w[i] == r[i]);
                }
            }
            assert(s.subrange(p + ra.len(), p + ra.len() + rb.len()) =~= rb) by {
                assert forall|i: int| 0 <= i < rb.len() implies s[p + ra.len() + i] == rb[i] by {
                    assert(w[ra.len() + i] == r[ra.len() + i]);
                }
            }
            reads_as_written(*a, *x, s, p);
            reads_as_written(*b, *y, s, p + ra.len());
        },
        (Shape::Many(max, a), Tree::Many(x)) => {
            lemma_be_bytes(x.len(), 4);
            let head = be_bytes(x.len(), 4);
            let body = render_all(*a, x, x.len());
            assert(s.subrange(p, p + 4) =~= head) by {
                assert forall|i: int| 0 <= i < 4 implies s[p + i] == head[i] by {
                    assert(w[i] == r[i]);
                }
            }
            assert(s.subrange(p + 4, p + 4 + body.len()) =~= body) by {
                assert forall|i: int| 0 <= i < body.len() implies s[p + 4 + i] == body[i] by {
                    assert(w[4 + i] == r[4 + i]);
                }
            }
            all_as_written(*a, x, x.len(), s, p + 4);
        },
        (Shape::Either(i, a, j, b), Tree::Either(k, x)) => {
            let rest = if k == i { render(*a, *x) } else { render(*b, *x) };
            assert(r =~= seq![k] + rest);
            assert(s[p] == k) by {
                assert(w[0] == r[0]);
            }
            assert(s.subrange(p + 1, p + 1 + rest.len()) =~= rest) by {
                assert forall|m: int| 0 <= m < rest.len() implies s[p + 1 + m] == rest[m] by {
                    assert(w[1 + m] == r[1 + m]);
                }
            }
            if k == i {
                reads_as_written(*a, *x, s, p + 1);
            } else {
                reads_as_written(*b, *x, s, p + 1);
            }
        },
        _ => {},
    }
    parse_of_render(f, t, s, p);
}

/// The same of the first `n` items of a list.
pub proof fn all_as_written(f: Shape, x: Seq<Tree>, n: nat, s: Seq<u8>, p: int)
    requires
        n <= x.len(),
        forall|i: int| 0 <= i < x.len() ==> written_as(f, #[trigger] x[i]),
        0 <= p,
        p + render_all(f, x, n).len() <= s.len(),
        s.subrange(p, p + render_all(f, x, n).len()) == render_all(f, x, n),
        parse_all(f, n, s, p) is Some,
    ensures
        forall|i: int| 0 <= i < n ==> conforms(f, #[trigger] x[i]),
        parse_all(f, n, s, p) == Some((x.take(n as int), p + render_all(f, x, n).len() as int)),
    decreases f, n + 1,
{
    if n == 0 {
        assert(x.take(0) =~= Seq::empty());
    } else {
        let front = render_all(f, x, (n - 1) as nat);
        let back = render(f, x[n - 1]);
        let r = front + back;
        let w = s.subrange(p, p + r.len());
        assert(s.subrange(p, p + front.len()) =~= front) by {
            assert forall|i: int| 0 <= i < front.len() implies s[p + i] == front[i] by {
                assert(w[i] == r[i]);
            }
        }
        assert(s.subrange(p + front.len(), p + front.len() + back.len()) =~= back) by {
            assert forall|i: int| 0 <= i < back.len() implies s[p + front.len() + i] == back[i] by {
                assert(w[front.len() + i] == r[front.len() + i]);
            }
        }
        all_as_written(f, x, (n - 1) as nat, s, p);
        reads_as_written(f, x[n - 1], s, p + front.len());
        assert(x.take(n as int) =~= x.take(n - 1).push(x[n - 1]));
    }
}

/// What is read can be written, and writing it gives the bytes that were read.
pub proof fn render_of_parse(f: Shape, s: Seq<u8>, p: int)
    requires
        0 <= p <= s.len(),
        parse(f, s, p) is Some,
    ensures
        ({
            let (t, q) = parse(f, s, p)->0;
            &&& p <= q <= s.len()
            &&& conforms(f, t)
            &&& render(f, t) == s.subrange(p, q)
        }),
    decreases f, 0nat,
{
    let (t, q) = parse(f, s, p)->0;
    match f {
        Shape::Nothing => {
            assert(s.subrange(p, p) =~= Seq::empty());
        },
        Shape::Number(w) => {
            lemma_be(s.subrange(p, p + w));
        },
        Shape::Fixed(n) => {},
        Shape::Field(w) => {
            lemma_be(s.subrange(p, p + w));
            assert(s.subrange(p, p + w) + s.subrange(p + w, q) =~= s.subrange(p, q));
            let n = be(s.subrange(p, p + w));
            assert(s.subrange(p + w, q).len() == n);
        },
        Shape::Text(w) => {
            lemma_be(s.subrange(p, p + w));
            assert(s.subrange(p, p + w) + s.subrange(p + w, q) =~= s.subrange(p, q));
            let n = be(s.subrange(p, p + w));
            assert(s.subrange(p + w, q).len() == n);
        },
        Shape::Then(a, b) => {
            render_of_parse(*a, s, p);
            let (x, m) = parse(*a, s, p)->0;
            render_of_parse(*b, s, m);
            assert(s.subrange(p, m) + s.subrange(m, q) =~= s.subrange(p, q));
        },
        Shape::Many(max, a) => {
            let head = s.subrange(p, p + 4);
            lemma_be(head);
            all_of_parse(*a, be(head), s, p + 4);
            let (x, m) = parse_all(*a, be(head), s, p + 4)->0;
            assert(head + s.subrange(p + 4, q) =~= s.subrange(p, q));
        },
        Shape::Either(i, a, j, b) => {
            if s[p] == i {
                render_of_parse(*a, s, p + 1);
            } else {
                render_of_parse(*b, s, p + 1);
            }
            assert(seq![s[p]] + s.subrange(p + 1, q) =~= s.subrange(p, q));
        },
    }
}

proof fn all_of_parse(f: Shape, n: nat, s: Seq<u8>, p: int)
    requires
        0 <= p <= s.len(),
        parse_all(f, n, s, p) is Some,
    ensures
        ({
            let (x, q) = parse_all(f, n, s, p)->0;
            &&& p <= q <= s.len()
            &&& x.len() == n
            &&& forall|i: int| 0 <= i < n ==> conforms(f, #[trigger] x[i])
            &&& render_all(f, x, n) == s.subrange(p, q)
        }),
    decreases f, n + 1,
{
    if n == 0 {
        assert(s.subrange(p, p) =~= Seq::empty());
    } else {
        all_of_parse(f, (n - 1) as nat, s, p);
        let (x, m) = parse_all(f, (n - 1) as nat, s, p)->0;
        render_of_parse(f, s, m);
        let (y, q) = parse(f, s, m)->0;
        lemma_render_all_prefix(f, x, x.push(y), (n - 1) as nat);
        assert(s.subrange(p, m) + s.subrange(m, q) =~= s.subrange(p, q));
    }
}

proof fn lemma_render_all_prefix(f: Shape, x: Seq<Tree>, y: Seq<Tree>, n: nat)
    requires
        n <= x.len(),
        n <= y.len(),
        forall|i: int| 0 <= i < n ==> x[i] == y[i],
    ensures
        render_all(f, x, n) == render_all(f, y, n),
    decreases n,
{
    if n > 0 {
        lemma_render_all_prefix(f, x, y, (n - 1) as nat);
    }
}

/// Reading looks at nothing but the bytes that it consumes.
pub proof fn parse_is_local(f: Shape, s: Seq<u8>, z: Seq<u8>, p: int)
    requires
        0 <= p <= s.len(),
        parse(f, s, p) is Some,
        (parse(f, s, p)->0).1 <= z.len(),
        z.subrange(p, (parse(f, s, p)->0).1) == s.subrange(p, (parse(f, s, p)->0).1),
    ensures
        parse(f, z, p) == parse(f, s, p),
{
    render_of_parse(f, s, p);
    let (t, q) = parse(f, s, p)->0;
    parse_of_render(f, t, z, p);
}

} // verus!
