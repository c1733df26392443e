//! Reading and writing typed records by their archive shapes.

use vstd::prelude::*;
use vstd::slice::slice_subrange;
use vstd::utf8::{decode_utf8, encode_utf8, valid_utf8};
use crate::bytes::{be, be_bytes, be_limit, copy_bytes, get_be, lemma_be_limits, put_be, put_bytes, wipe};
use crate::error::Error;
use crate::model::views;
use crate::grammar::{absent, both, conforms, flag, maybe, parse, parse_all, parse_of_render, present, reads_as_written, render, render_all, then, written_as, Shape, Tree};

verus! {

broadcast use {vstd::utf8::encode_utf8_decode_utf8, vstd::utf8::decode_utf8_encode_utf8};

/// The first length or count, in writing order, that its prefix cannot hold.
pub open spec fn size_error(f: Shape, t: Tree) -> Option<Error>
    decreases f, 0nat,
{
    match (f, t) {
        (Shape::Field(w), Tree::Bytes(s)) => if s.len() < be_limit(w) {
            None
        } else {
            Some(Error::FieldTooLarge)
        },
        (Shape::Text(w), Tree::Bytes(s)) => if s.len() < be_limit(w) {
            None
        } else {
            Some(Error::FieldTooLarge)
        },
        (Shape::Then(a, b), Tree::Then(x, y)) => match size_error(*a, *x) {
            Some(e) => Some(e),
            None => size_error(*b, *y),
        },
        (Shape::Many(max, a), Tree::Many(s)) => if s.len() < be_limit(4) {
            size_error_all(*a, s, s.len())
        } else {
            Some(Error::ExportTooLarge)
        },
        (Shape::Either(i, a, j, b), Tree::Either(k, x)) => if k == i {
            size_error(*a, *x)
        } else {
            size_error(*b, *x)
        },
        _ => None,
    }
}

/// The first such length among the first `n` items of `s`.
pub open spec fn size_error_all(f: Shape, s: Seq<Tree>, n: nat) -> Option<Error>
    decreases f, n + 1,
{
    if n == 0 {
        None
    } else {
        match size_error_all(f, s, (n - 1) as nat) {
            Some(e) => Some(e),
            None => size_error(f, s[n - 1]),
        }
    }
}

pub broadcast proof fn render_then(a: Shape, b: Shape, x: Tree, y: Tree)
    ensures
        #[trigger] render(then(a, b), both(x, y)) == render(a, x) + render(b, y),
{
}

pub broadcast proof fn size_then(a: Shape, b: Shape, x: Tree, y: Tree)
    ensures
        #[trigger] size_error(then(a, b), both(x, y)) == (match size_error(a, x) {
            Some(e) => Some(e),
            None => size_error(b, y),
        }),
{
}

pub broadcast proof fn parse_then(a: Shape, b: Shape, s: Seq<u8>, p: int)
    ensures
        #[trigger] parse(then(a, b), s, p) == (match parse(a, s, p) {
            Some((x, q)) => match parse(b, s, q) {
                Some((y, r)) => Some((both(x, y), r)),
                None => None,
            },
            None => None,
        }),
{
}

/// Where no item is too large, each is not.
pub proof fn lemma_all_sizes(f: Shape, s: Seq<Tree>, n: nat)
    requires
        size_error_all(f, s, n) is None,
    ensures
        forall|i: int| 0 <= i < n ==> size_error(f, #[trigger] s[i]) is None,
    decreases n,
{
    if n > 0 {
        lemma_all_sizes(f, s, (n - 1) as nat);
    }
}

/// Whether a write of `t` in shape `f` to the end of `before` came out as it must.
pub open spec fn wrote(f: Shape, t: Tree, before: Seq<u8>, after: Seq<u8>, r: Result<(), Error>) -> bool {
    match size_error(f, t) {
        Some(e) => r == Err::<(), Error>(e),
        None => r == Ok::<(), Error>(()) && after == before + render(f, t),
    }
}

/// Makes text of bytes: `String::from_utf8` of std, which gives the text whose
/// UTF-8 encoding the bytes are, and fails on every other byte string.
#[verifier::external_body]
fn text_of(bytes: Vec<u8>) -> (r: Option<String>)
    ensures
        r is Some <==> valid_utf8(bytes@),
        r matches Some(s) ==> s@ == decode_utf8(bytes@),
{
    String::from_utf8(bytes).ok()
}

pub fn put_count(v: &mut Vec<u8>, count: usize) -> (r: Result<(), Error>)
    ensures
        count < 0x1_0000_0000 ==> r == Ok::<(), Error>(()) && final(v)@ == old(v)@ + be_bytes(count as nat, 4),
        count >= 0x1_0000_0000 ==> r == Err::<(), Error>(Error::ExportTooLarge) && final(v)@ == old(v)@,
{
    if count as u64 >= 0x1_0000_0000 {
        return Err(Error::ExportTooLarge);
    }
    put_be(v, count as u64, 4);
    Ok(())
}

pub fn put16(v: &mut Vec<u8>, bytes: &[u8]) -> (r: Result<(), Error>)
    ensures
        wrote(Shape::Field(2), Tree::Bytes(bytes@), old(v)@, final(v)@, r),
{
    proof {
        lemma_be_limits();
    }
    if bytes.len() >= 0x1_0000 {
        return Err(Error::FieldTooLarge);
    }
    put_be(v, bytes.len() as u64, 2);
    put_bytes(v, bytes);
    assert(v@ =~= old(v)@ + (be_bytes(bytes@.len(), 2) + bytes@));
    Ok(())
}

pub fn put32(v: &mut Vec<u8>, bytes: &[u8]) -> (r: Result<(), Error>)
    ensures
        wrote(Shape::Field(4), Tree::Bytes(bytes@), old(v)@, final(v)@, r),
{
    proof {
        lemma_be_limits();
    }
    if bytes.len() as u64 >= 0x1_0000_0000 {
        return Err(Error::FieldTooLarge);
    }
    put_be(v, bytes.len() as u64, 4);
    put_bytes(v, bytes);
    assert(v@ =~= old(v)@ + (be_bytes(bytes@.len(), 4) + bytes@));
    Ok(())
}

/// Writes a field and then clears the buffer that held it.
pub fn put_sensitive(v: &mut Vec<u8>, bytes: Vec<u8>) -> (r: Result<(), Error>)
    ensures
        wrote(Shape::Field(4), Tree::Bytes(bytes@), old(v)@, final(v)@, r),
{
    let mut bytes = bytes;
    let r = put32(v, bytes.as_slice());
    wipe(&mut bytes);
    r
}

/// Writes text as a field with a two-byte length.
pub fn put_text16(v: &mut Vec<u8>, text: &str) -> (r: Result<(), Error>)
    ensures
        wrote(Shape::Text(2), Tree::Bytes(encode_utf8(text@)), old(v)@, final(v)@, r),
{
    let r = put16(v, text.as_bytes());
    proof {
        assert(size_error(Shape::Text(2), Tree::Bytes(encode_utf8(text@))) == size_error(Shape::Field(2), Tree::Bytes(encode_utf8(text@))));
        assert(render(Shape::Text(2), Tree::Bytes(encode_utf8(text@))) == render(Shape::Field(2), Tree::Bytes(encode_utf8(text@))));
    }
    r
}

/// The next `len` bytes.
pub fn take<'a>(buf: &'a [u8], position: &mut usize, len: usize) -> (r: Result<&'a [u8], Error>)
    ensures
        match r {
            Ok(x) => parse(Shape::Fixed(len as nat), buf@, *old(position) as int) == Some((Tree::Bytes(x@), *final(position) as int)),
            Err(e) => e == Error::Malformed && *old(position) + len > buf@.len() && *final(position) == *old(position),
        },
{
    let at: usize = *position;
    if at > buf.len() || len > buf.len() - at {
        return Err(Error::Malformed);
    }
    let value = slice_subrange(buf, at, at + len);
    *position = at + len;
    Ok(value)
}

/// The next `width` bytes as a number.
fn take_be(buf: &[u8], position: &mut usize, width: usize) -> (r: Result<u64, Error>)
    requires
        width <= 8,
    ensures
        match r {
            Ok(x) => parse(Shape::Number(width as nat), buf@, *old(position) as int) == Some((Tree::Number(x as nat), *final(position) as int))
                && x < be_limit(width as nat),
            Err(e) => e == Error::Malformed && parse(Shape::Number(width as nat), buf@, *old(position) as int) is None,
        },
{
    let at: usize = *position;
    if at > buf.len() || width > buf.len() - at {
        return Err(Error::Malformed);
    }
    let x: u64 = get_be(buf, at, width);
    *position = at + width;
    Ok(x)
}

/// Appends one byte.
pub fn put_u8(v: &mut Vec<u8>, x: u8)
    ensures
        final(v)@ == old(v)@ + be_bytes(x as nat, 1),
{
    put_be(v, x as u64, 1);
}

pub fn put_u16(v: &mut Vec<u8>, x: u16)
    ensures
        final(v)@ == old(v)@ + be_bytes(x as nat, 2),
{
    put_be(v, x as u64, 2);
}

pub fn put_u64(v: &mut Vec<u8>, x: u64)
    ensures
        final(v)@ == old(v)@ + be_bytes(x as nat, 8),
{
    put_be(v, x, 8);
}

/// The next byte as a number.
pub fn take_byte(buf: &[u8], position: &mut usize) -> (r: Result<u8, Error>)
    ensures
        match r {
            Ok(x) => parse(Shape::Number(1), buf@, *old(position) as int) == Some((Tree::Number(x as nat), *final(position) as int)),
            Err(e) => e == Error::Malformed && parse(Shape::Number(1), buf@, *old(position) as int) is None,
        },
{
    proof {
        lemma_be_limits();
    }
    Ok(take_be(buf, position, 1)? as u8)
}

pub fn take_u8(buf: &[u8], position: &mut usize) -> (r: Result<u8, Error>)
    ensures
        match r {
            Ok(x) => *old(position) + 1 <= buf@.len() && x == buf@[*old(position) as int] && *final(position) == *old(position) + 1,
            Err(e) => e == Error::Malformed && *old(position) + 1 > buf@.len(),
        },
{
    let at: usize = *position;
    if at >= buf.len() {
        return Err(Error::Malformed);
    }
    *position = at + 1;
    Ok(buf[at])
}

pub fn take_u16(buf: &[u8], position: &mut usize) -> (r: Result<u16, Error>)
    ensures
        match r {
            Ok(x) => parse(Shape::Number(2), buf@, *old(position) as int) == Some((Tree::Number(x as nat), *final(position) as int)),
            Err(e) => e == Error::Malformed && parse(Shape::Number(2), buf@, *old(position) as int) is None,
        },
{
    proof {
        lemma_be_limits();
    }
    Ok(take_be(buf, position, 2)? as u16)
}

pub fn take_u32(buf: &[u8], position: &mut usize) -> (r: Result<u32, Error>)
    ensures
        match r {
            Ok(x) => parse(Shape::Number(4), buf@, *old(position) as int) == Some((Tree::Number(x as nat), *final(position) as int)),
            Err(e) => e == Error::Malformed && parse(Shape::Number(4), buf@, *old(position) as int) is None,
        },
{
    proof {
        lemma_be_limits();
    }
    Ok(take_be(buf, position, 4)? as u32)
}

pub fn take_u64(buf: &[u8], position: &mut usize) -> (r: Result<u64, Error>)
    ensures
        match r {
            Ok(x) => parse(Shape::Number(8), buf@, *old(position) as int) == Some((Tree::Number(x as nat), *final(position) as int)),
            Err(e) => e == Error::Malformed && parse(Shape::Number(8), buf@, *old(position) as int) is None,
        },
{
    take_be(buf, position, 8)
}

pub fn take16<'a>(buf: &'a [u8], position: &mut usize) -> (r: Result<&'a [u8], Error>)
    ensures
        match r {
            Ok(x) => parse(Shape::Field(2), buf@, *old(position) as int) == Some((Tree::Bytes(x@), *final(position) as int)),
            Err(e) => e == Error::Malformed && parse(Shape::Field(2), buf@, *old(position) as int) is None,
        },
{
    let len: usize = take_u16(buf, position)? as usize;
    take(buf, position, len)
}

pub fn take32<'a>(buf: &'a [u8], position: &mut usize) -> (r: Result<&'a [u8], Error>)
    ensures
        match r {
            Ok(x) => parse(Shape::Field(4), buf@, *old(position) as int) == Some((Tree::Bytes(x@), *final(position) as int)),
            Err(e) => e == Error::Malformed && parse(Shape::Field(4), buf@, *old(position) as int) is None,
        },
{
    let len: usize = take_u32(buf, position)? as usize;
    take(buf, position, len)
}

/// The next count, refused above `maximum`.
pub fn take_count(buf: &[u8], position: &mut usize, maximum: usize) -> (r: Result<usize, Error>)
    ensures
        match r {
            Ok(x) => parse(Shape::Number(4), buf@, *old(position) as int) == Some((Tree::Number(x as nat), *final(position) as int))
                && x <= maximum,
            Err(e) => e == Error::Malformed && match parse(Shape::Number(4), buf@, *old(position) as int) {
                Some((Tree::Number(x), _)) => x > maximum,
                _ => true,
            },
        },
{
    let count: usize = take_u32(buf, position)? as usize;
    if count <= maximum {
        Ok(count)
    } else {
        Err(Error::Malformed)
    }
}

/// The next `N` bytes as an array.
pub fn take_array<const N: usize>(buf: &[u8], position: &mut usize) -> (r: Result<[u8; N], Error>)
    ensures
        match r {
            Ok(x) => parse(Shape::Fixed(N as nat), buf@, *old(position) as int) == Some((Tree::Bytes(x@), *final(position) as int)),
            Err(e) => e == Error::Malformed && parse(Shape::Fixed(N as nat), buf@, *old(position) as int) is None,
        },
{
    let s = take(buf, position, N)?;
    let mut out: [u8; N] = [0u8; N];
    let mut i: usize = 0;
    while i < N
        invariant
            i <= N,
            s@.len() == N,
            forall|j: int| 0 <= j < i ==> out@[j] == s@[j],
        decreases N - i,
    {
        out[i] = s[i];
        i += 1;
    }
    assert(out@ =~= s@);
    Ok(out)
}

pub fn take_string16(buf: &[u8], position: &mut usize) -> (r: Result<String, Error>)
    ensures
        match r {
            Ok(x) => parse(Shape::Text(2), buf@, *old(position) as int) == Some((Tree::Bytes(encode_utf8(x@)), *final(position) as int)),
            Err(e) => e == Error::Malformed && parse(Shape::Text(2), buf@, *old(position) as int) is None,
        },
{
    let s = take16(buf, position)?;
    match text_of(copy_bytes(s)) {
        Some(text) => Ok(text),
        None => Err(Error::Malformed),
    }
}

/// A flag byte: zero for no, one for yes.
pub fn take_flag(buf: &[u8], position: &mut usize) -> (r: Result<bool, Error>)
    ensures
        match r {
            Ok(x) => *old(position) + 1 <= buf@.len() && buf@[*old(position) as int] == (if x { 1u8 } else { 0u8 })
                && *final(position) == *old(position) + 1,
            Err(e) => e == Error::Malformed && (*old(position) + 1 > buf@.len() || buf@[*old(position) as int] > 1),
        },
{
    match take_u8(buf, position)? {
        0 => Ok(false),
        1 => Ok(true),
        _ => Err(Error::Malformed),
    }
}

/// How an archive is laid out: its version, and the counts that it may hold.
#[derive(Clone, Copy, Debug, PartialEq, Eq, Structural)]
pub struct Layout {
    pub version: u8,
    pub channel_max: usize,
    pub channel_ack_limit: usize,
    pub forward_grants_max: usize,
    pub application_inbox_limit: usize,
}

/// A record with an archive shape in each layout, known by its view.
pub trait Framed: View + Sized {
    spec fn shape(layout: Layout) -> Shape;

    /// What the archive says of the record.
    spec fn tree(v: Self::V, layout: Layout) -> Tree;

    /// Whether the parts that the layout does not write hold their stand-ins.
    spec fn plain(v: Self::V, layout: Layout) -> bool;

    /// What the archive says of a record, and nothing else, makes it what it is.
    proof fn same_tree(a: Self::V, b: Self::V, layout: Layout)
        requires
            Self::tree(a, layout) == Self::tree(b, layout),
            Self::plain(a, layout),
            Self::plain(b, layout),
        ensures
            a == b,
    ;

    /// Whether no list in the record is longer than readers take.
    spec fn bounded(v: Self::V, layout: Layout) -> bool;

    /// A record can be written where no length is too long, and read where no list
    /// is either.
    proof fn fits(v: Self::V, layout: Layout)
        requires
            size_error(Self::shape(layout), Self::tree(v, layout)) is None,
        ensures
            written_as(Self::shape(layout), Self::tree(v, layout)),
            Self::bounded(v, layout) ==> conforms(Self::shape(layout), Self::tree(v, layout)),
    ;

    fn take_from(buf: &[u8], position: &mut usize, layout: Layout) -> (r: Result<Self, Error>)
        ensures
            match r {
                Ok(x) => parse(Self::shape(layout), buf@, *old(position) as int) == Some((Self::tree(x@, layout), *final(position) as int))
                    && Self::plain(x@, layout),
                Err(e) => e == Error::Malformed && parse(Self::shape(layout), buf@, *old(position) as int) is None,
            },
    ;

    fn put_into(&self, out: &mut Vec<u8>, layout: Layout) -> (r: Result<(), Error>)
        ensures
            wrote(Self::shape(layout), Self::tree(self@, layout), old(out)@, final(out)@, r),
    ;
}

pub open spec fn all_plain<R: Framed>(s: Seq<R::V>, layout: Layout) -> bool {
    forall|i: int| 0 <= i < s.len() ==> R::plain(#[trigger] s[i], layout)
}

pub open spec fn trees<R: Framed>(s: Seq<R::V>, layout: Layout) -> Seq<Tree> {
    Seq::new(s.len(), |i: int| R::tree(s[i], layout))
}

/// The bytes of a record.
pub open spec fn rendered<R: Framed>(v: R::V, layout: Layout) -> Seq<u8> {
    render(R::shape(layout), R::tree(v, layout))
}

/// The first length in a record that its prefix cannot hold.
pub open spec fn oversize<R: Framed>(v: R::V, layout: Layout) -> Option<Error> {
    size_error(R::shape(layout), R::tree(v, layout))
}

/// Records that the archive describes alike are alike.
pub proof fn lemma_same_trees<R: Framed>(a: Seq<R::V>, b: Seq<R::V>, layout: Layout)
    requires
        trees::<R>(a, layout) == trees::<R>(b, layout),
        all_plain::<R>(a, layout),
        all_plain::<R>(b, layout),
    ensures
        a == b,
{
    assert(trees::<R>(a, layout).len() == a.len());
    assert(trees::<R>(b, layout).len() == b.len());
    assert forall|i: int| 0 <= i < a.len() implies a[i] == b[i] by {
        assert(trees::<R>(a, layout)[i] == R::tree(a[i], layout));
        assert(trees::<R>(b, layout)[i] == R::tree(b[i], layout));
        R::same_tree(a[i], b[i], layout);
    }
    assert(a =~= b);
}

pub open spec fn all_bounded<R: Framed>(s: Seq<R::V>, maximum: nat, layout: Layout) -> bool {
    s.len() <= maximum && forall|i: int| 0 <= i < s.len() ==> R::bounded(#[trigger] s[i], layout)
}

pub proof fn lemma_many_fits<R: Framed>(s: Seq<R::V>, maximum: nat, layout: Layout)
    requires
        size_error(Shape::Many(maximum, Box::new(R::shape(layout))), Tree::Many(trees::<R>(s, layout))) is None,
    ensures
        written_as(Shape::Many(maximum, Box::new(R::shape(layout))), Tree::Many(trees::<R>(s, layout))),
        all_bounded::<R>(s, maximum, layout) ==> conforms(
            Shape::Many(maximum, Box::new(R::shape(layout))),
            Tree::Many(trees::<R>(s, layout)),
        ),
{
    let ts = trees::<R>(s, layout);
    lemma_all_sizes(R::shape(layout), ts, ts.len());
    assert forall|i: int| 0 <= i < ts.len() implies written_as(R::shape(layout), #[trigger] ts[i]) && (R::bounded(s[i], layout)
        ==> conforms(R::shape(layout), ts[i])) by {
        assert(ts[i] == R::tree(s[i], layout));
        R::fits(s[i], layout);
    }
}

/// What is written of a record reads as that record.
pub proof fn written_reads_back<R: Framed>(v: R::V, layout: Layout, s: Seq<u8>, p: int)
    requires
        R::plain(v, layout),
        R::bounded(v, layout),
        oversize::<R>(v, layout) is None,
        0 <= p,
        p + rendered::<R>(v, layout).len() <= s.len(),
        s.subrange(p, p + rendered::<R>(v, layout).len()) == rendered::<R>(v, layout),
    ensures
        parse(R::shape(layout), s, p) == Some((R::tree(v, layout), p + rendered::<R>(v, layout).len())),
        reads::<R>(layout, s, p) == Some((v, p + rendered::<R>(v, layout).len())),
{
    R::fits(v, layout);
    parse_of_render(R::shape(layout), R::tree(v, layout), s, p);
    lemma_seen::<R>(v, layout);
}

/// What is written of a record reads as that record, where it reads at all.
pub proof fn read_as_written<R: Framed>(v: R::V, layout: Layout, s: Seq<u8>, p: int)
    requires
        R::plain(v, layout),
        oversize::<R>(v, layout) is None,
        0 <= p,
        p + rendered::<R>(v, layout).len() <= s.len(),
        s.subrange(p, p + rendered::<R>(v, layout).len()) == rendered::<R>(v, layout),
        reads::<R>(layout, s, p) is Some,
    ensures
        parse(R::shape(layout), s, p) == Some((R::tree(v, layout), p + rendered::<R>(v, layout).len())),
        reads::<R>(layout, s, p) == Some((v, p + rendered::<R>(v, layout).len())),
{
    R::fits(v, layout);
    reads_as_written(R::shape(layout), R::tree(v, layout), s, p);
    lemma_seen::<R>(v, layout);
}

pub broadcast proof fn written_as_then(a: Shape, b: Shape, x: Tree, y: Tree)
    ensures
        #[trigger] written_as(then(a, b), both(x, y)) == (written_as(a, x) && written_as(b, y)),
{
}

pub broadcast proof fn conforms_then(a: Shape, b: Shape, x: Tree, y: Tree)
    ensures
        #[trigger] conforms(then(a, b), both(x, y)) == (conforms(a, x) && conforms(b, y)),
{
}

/// Arrays with the same bytes are the same.
pub proof fn lemma_same_array<const N: usize>(a: [u8; N], b: [u8; N])
    requires
        a@ == b@,
    ensures
        a == b,
{
    assert forall|i: int| 0 <= i < N implies a[i] == b[i] by {
        assert(a@[i] == b@[i]);
    }
    assert(a =~= b);
}

/// The record that a description stands for.
pub open spec fn seen<R: Framed>(t: Tree, layout: Layout) -> R::V {
    choose|v: R::V| R::plain(v, layout) && #[trigger] R::tree(v, layout) == t
}

/// The record that stands at a place, and where it ends.
pub open spec fn reads<R: Framed>(layout: Layout, s: Seq<u8>, p: int) -> Option<(R::V, int)> {
    match parse(R::shape(layout), s, p) {
        Some((t, q)) => Some((seen::<R>(t, layout), q)),
        None => None,
    }
}

pub proof fn lemma_seen<R: Framed>(v: R::V, layout: Layout)
    requires
        R::plain(v, layout),
    ensures
        seen::<R>(R::tree(v, layout), layout) == v,
{
    let t = R::tree(v, layout);
    let w = seen::<R>(t, layout);
    assert(R::plain(w, layout) && R::tree(w, layout) == t);
    R::same_tree(v, w, layout);
}

/// Reads a record.
pub fn take_frame<R: Framed>(buf: &[u8], position: &mut usize, layout: Layout) -> (r: Result<R, Error>)
    ensures
        match r {
            Ok(x) => reads::<R>(layout, buf@, *old(position) as int) == Some((x@, *final(position) as int))
                && parse(R::shape(layout), buf@, *old(position) as int) == Some((R::tree(x@, layout), *final(position) as int))
                && R::plain(x@, layout),
            Err(e) => e == Error::Malformed && reads::<R>(layout, buf@, *old(position) as int) is None,
        },
{
    match R::take_from(buf, position, layout) {
        Ok(x) => {
            proof {
                lemma_seen::<R>(x@, layout);
            }
            Ok(x)
        },
        Err(e) => Err(e),
    }
}

proof fn lemma_parse_all_stops(f: Shape, m: nat, n: nat, s: Seq<u8>, p: int)
    requires
        m <= n,
        parse_all(f, m, s, p) is None,
    ensures
        parse_all(f, n, s, p) is None,
    decreases n,
{
    if m < n {
        lemma_parse_all_stops(f, m, (n - 1) as nat, s, p);
    }
}

/// Counted records of one kind.
pub fn take_many<R: Framed>(buf: &[u8], position: &mut usize, maximum: usize, layout: Layout) -> (r: Result<Vec<R>, Error>)
    ensures
        match r {
            Ok(x) => parse(Shape::Many(maximum as nat, Box::new(R::shape(layout))), buf@, *old(position) as int)
                == Some((Tree::Many(trees::<R>(views(x@), layout)), *final(position) as int))
                && x@.len() <= maximum
                && all_plain::<R>(views(x@), layout),
            Err(e) => e == Error::Malformed
                && parse(Shape::Many(maximum as nat, Box::new(R::shape(layout))), buf@, *old(position) as int) is None,
        },
{
    let count: usize = take_count(buf, position, maximum)?;
    let mut items: Vec<R> = Vec::new();
    let mut i: usize = 0;
    let ghost start = *position as int;
    assert(parse_all(R::shape(layout), 0, buf@, start) == Some((trees::<R>(views(items@), layout), start))) by {
        assert(trees::<R>(views(items@), layout) =~= Seq::empty());
    }
    while i < count
        invariant
            i <= count,
            items@.len() == i,
            all_plain::<R>(views(items@), layout),
            parse_all(R::shape(layout), i as nat, buf@, start) == Some((trees::<R>(views(items@), layout), *position as int)),
            parse(Shape::Many(maximum as nat, Box::new(R::shape(layout))), buf@, *old(position) as int)
                == (match parse_all(R::shape(layout), count as nat, buf@, start) {
                Some((x, q)) => Some((Tree::Many(x), q)),
                None => None,
            }),
        decreases count - i,
    {
        let ghost before = views(items@);
        match R::take_from(buf, position, layout) {
            Ok(item) => {
                items.push(item);
                assert(views(items@) =~= before.push(item@));
                assert(trees::<R>(views(items@), layout) =~= trees::<R>(before, layout).push(R::tree(item@, layout)));
            },
            Err(e) => {
                proof {
                    lemma_parse_all_stops(R::shape(layout), (i + 1) as nat, count as nat, buf@, start);
                }
                return Err(e);
            },
        }
        i += 1;
    }
    Ok(items)
}

proof fn lemma_size_error_all_stays(f: Shape, s: Seq<Tree>, m: nat, n: nat)
    requires
        m <= n,
        size_error_all(f, s, m) is Some,
    ensures
        size_error_all(f, s, n) == size_error_all(f, s, m),
    decreases n,
{
    if m < n {
        lemma_size_error_all_stays(f, s, m, (n - 1) as nat);
    }
}

/// Writes counted records of one kind. The maximum binds readers only.
pub(crate) fn put_many<R: Framed>(items: &Vec<R>, out: &mut Vec<u8>, Ghost(maximum): Ghost<nat>, layout: Layout) -> (r: Result<(), Error>)
    ensures
        wrote(Shape::Many(maximum, Box::new(R::shape(layout))), Tree::Many(trees::<R>(views(items@), layout)), old(out)@, final(out)@, r),
{
    let ghost all = trees::<R>(views(items@), layout);
    let ghost f = R::shape(layout);
    proof {
        lemma_be_limits();
    }
    put_count(out, items.len())?;
    let ghost head = be_bytes(all.len(), 4);
    let mut i: usize = 0;
    assert(out@ =~= old(out)@ + head + render_all(f, all, 0));
    while i < items.len()
        invariant
            i <= items.len(),
            all == trees::<R>(views(items@), layout),
            f == R::shape(layout),
            all.len() < be_limit(4),
            head == be_bytes(all.len(), 4),
            size_error_all(f, all, i as nat) is None,
            out@ == old(out)@ + head + render_all(f, all, i as nat),
        decreases items.len() - i,
    {
        let ghost before = out@;
        assert(all[i as int] == R::tree(items@[i as int]@, layout));
        match items[i].put_into(out, layout) {
            Ok(_) => {},
            Err(e) => {
                proof {
                    lemma_size_error_all_stays(f, all, (i + 1) as nat, items@.len());
                }
                return Err(e);
            },
        }
        assert(out@ =~= old(out)@ + head + render_all(f, all, (i + 1) as nat));
        i += 1;
    }
    assert(out@ =~= old(out)@ + (head + render_all(f, all, all.len())));
    Ok(())
}

/// A shape that only some layouts have.
#[verifier::opaque]
pub open spec fn since(present: bool, f: Shape) -> Shape {
    if present {
        f
    } else {
        Shape::Nothing
    }
}

#[verifier::opaque]
pub open spec fn where_present(present: bool, t: Tree) -> Tree {
    if present {
        t
    } else {
        Tree::Nothing
    }
}

pub open spec fn maybe_tree(o: Option<Seq<u8>>) -> Tree {
    match o {
        Some(b) => present(Tree::Bytes(b)),
        None => absent(),
    }
}

pub open spec fn bytes_view(o: Option<Vec<u8>>) -> Option<Seq<u8>> {
    match o {
        Some(v) => Some(v@),
        None => None,
    }
}

pub open spec fn text_view(o: Option<String>) -> Option<Seq<u8>> {
    match o {
        Some(v) => Some(encode_utf8(v@)),
        None => None,
    }
}

pub open spec fn text_bytes(o: Option<Seq<char>>) -> Option<Seq<u8>> {
    match o {
        Some(v) => Some(encode_utf8(v)),
        None => None,
    }
}

pub open spec fn id_view(o: Option<[u8; 32]>) -> Option<Seq<u8>> {
    match o {
        Some(v) => Some(v@),
        None => None,
    }
}

proof fn lemma_one_byte(x: u8)
    ensures
        be_bytes(x as nat, 1) == seq![x],
{
    reveal_with_fuel(be_bytes, 2);
    assert(be_bytes(x as nat, 1) =~= seq![x]);
}

/// Appends a flag byte.
pub fn put_flag(v: &mut Vec<u8>, yes: bool)
    ensures
        final(v)@ == old(v)@ + render(maybe(Shape::Nothing), flag(yes)),
        size_error(maybe(Shape::Nothing), flag(yes)) is None,
{
    proof {
        reveal_with_fuel(size_error, 3);
        reveal_with_fuel(render, 3);
        lemma_one_byte(if yes { 1u8 } else { 0u8 });
    }
    put_u8(v, if yes { 1 } else { 0 });
    assert(v@ =~= old(v)@ + render(maybe(Shape::Nothing), flag(yes)));
}

pub fn take_bool(buf: &[u8], position: &mut usize) -> (r: Result<bool, Error>)
    ensures
        match r {
            Ok(x) => parse(maybe(Shape::Nothing), buf@, *old(position) as int) == Some((flag(x), *final(position) as int)),
            Err(e) => e == Error::Malformed && parse(maybe(Shape::Nothing), buf@, *old(position) as int) is None,
        },
{
    proof {
        reveal_with_fuel(parse, 3);
    }
    take_flag(buf, position)
}

pub fn take_opt32(buf: &[u8], position: &mut usize) -> (r: Result<Option<Vec<u8>>, Error>)
    ensures
        match r {
            Ok(x) => parse(maybe(Shape::Field(4)), buf@, *old(position) as int) == Some((maybe_tree(bytes_view(x)), *final(position) as int)),
            Err(e) => e == Error::Malformed && parse(maybe(Shape::Field(4)), buf@, *old(position) as int) is None,
        },
{
    proof {
        reveal_with_fuel(parse, 3);
    }
    if take_flag(buf, position)? {
        Ok(Some(copy_bytes(take32(buf, position)?)))
    } else {
        Ok(None)
    }
}

pub fn put_opt32(v: &mut Vec<u8>, x: &Option<Vec<u8>>) -> (r: Result<(), Error>)
    ensures
        wrote(maybe(Shape::Field(4)), maybe_tree(bytes_view(*x)), old(v)@, final(v)@, r),
{
    proof {
        reveal_with_fuel(render, 3);
        reveal_with_fuel(size_error, 3);
        lemma_one_byte(0);
        lemma_one_byte(1);
    }
    match x {
        Some(bytes) => {
            put_u8(v, 1);
            put32(v, bytes.as_slice())?;
        },
        None => {
            put_u8(v, 0);
        },
    }
    assert(v@ =~= old(v)@ + render(maybe(Shape::Field(4)), maybe_tree(bytes_view(*x))));
    Ok(())
}

pub fn take_opt_text(buf: &[u8], position: &mut usize) -> (r: Result<Option<String>, Error>)
    ensures
        match r {
            Ok(x) => parse(maybe(Shape::Text(2)), buf@, *old(position) as int) == Some((maybe_tree(text_view(x)), *final(position) as int)),
            Err(e) => e == Error::Malformed && parse(maybe(Shape::Text(2)), buf@, *old(position) as int) is None,
        },
{
    proof {
        reveal_with_fuel(parse, 3);
    }
    if take_flag(buf, position)? {
        Ok(Some(take_string16(buf, position)?))
    } else {
        Ok(None)
    }
}

pub fn put_opt_text(v: &mut Vec<u8>, x: &Option<String>) -> (r: Result<(), Error>)
    ensures
        wrote(maybe(Shape::Text(2)), maybe_tree(text_view(*x)), old(v)@, final(v)@, r),
{
    proof {
        reveal_with_fuel(render, 3);
        reveal_with_fuel(size_error, 3);
        lemma_one_byte(0);
        lemma_one_byte(1);
    }
    match x {
        Some(text) => {
            put_u8(v, 1);
            put_text16(v, text.as_str())?;
        },
        None => {
            put_u8(v, 0);
        },
    }
    assert(v@ =~= old(v)@ + render(maybe(Shape::Text(2)), maybe_tree(text_view(*x))));
    Ok(())
}

pub fn take_opt_id(buf: &[u8], position: &mut usize) -> (r: Result<Option<[u8; 32]>, Error>)
    ensures
        match r {
            Ok(x) => parse(maybe(Shape::Fixed(32)), buf@, *old(position) as int) == Some((maybe_tree(id_view(x)), *final(position) as int)),
            Err(e) => e == Error::Malformed && parse(maybe(Shape::Fixed(32)), buf@, *old(position) as int) is None,
        },
{
    proof {
        reveal_with_fuel(parse, 3);
    }
    if take_flag(buf, position)? {
        Ok(Some(take_array::<32>(buf, position)?))
    } else {
        Ok(None)
    }
}

pub fn put_opt_id(v: &mut Vec<u8>, x: &Option<[u8; 32]>)
    ensures
        final(v)@ == old(v)@ + render(maybe(Shape::Fixed(32)), maybe_tree(id_view(*x))),
        size_error(maybe(Shape::Fixed(32)), maybe_tree(id_view(*x))) is None,
{
    proof {
        reveal_with_fuel(size_error, 3);
        reveal_with_fuel(render, 3);
        lemma_one_byte(0);
        lemma_one_byte(1);
    }
    match x {
        Some(id) => {
            put_u8(v, 1);
            put_bytes(v, id);
        },
        None => {
            put_u8(v, 0);
        },
    }
    assert(v@ =~= old(v)@ + render(maybe(Shape::Fixed(32)), maybe_tree(id_view(*x))));
}

/// A number that only some layouts write.
pub fn take_u64_if(present: bool, stand_in: u64, buf: &[u8], position: &mut usize) -> (r: Result<u64, Error>)
    ensures
        match r {
            Ok(x) => parse(since(present, Shape::Number(8)), buf@, *old(position) as int) == Some((where_present(present, Tree::Number(x as nat)), *final(position) as int))
                && (!present ==> x == stand_in),
            Err(e) => e == Error::Malformed && parse(since(present, Shape::Number(8)), buf@, *old(position) as int) is None,
        },
{
    proof {
        reveal(since);
        reveal(where_present);
    }
    if present {
        take_u64(buf, position)
    } else {
        Ok(stand_in)
    }
}

pub fn put_u64_if(present: bool, x: u64, v: &mut Vec<u8>)
    ensures
        final(v)@ == old(v)@ + render(since(present, Shape::Number(8)), where_present(present, Tree::Number(x as nat))),
        size_error(since(present, Shape::Number(8)), where_present(present, Tree::Number(x as nat))) is None,
{
    proof {
        reveal(since);
        reveal(where_present);
    }
    if present {
        put_u64(v, x);
    }
    assert(v@ =~= old(v)@ + render(since(present, Shape::Number(8)), where_present(present, Tree::Number(x as nat))));
}

/// A field that only some layouts write.
pub fn take32_if(present: bool, buf: &[u8], position: &mut usize) -> (r: Result<Vec<u8>, Error>)
    ensures
        match r {
            Ok(x) => parse(since(present, Shape::Field(4)), buf@, *old(position) as int) == Some((where_present(present, Tree::Bytes(x@)), *final(position) as int))
                && (!present ==> x@.len() == 0),
            Err(e) => e == Error::Malformed && parse(since(present, Shape::Field(4)), buf@, *old(position) as int) is None,
        },
{
    proof {
        reveal(since);
        reveal(where_present);
    }
    if present {
        Ok(copy_bytes(take32(buf, position)?))
    } else {
        Ok(Vec::new())
    }
}

pub fn put32_if(present: bool, x: &Vec<u8>, v: &mut Vec<u8>) -> (r: Result<(), Error>)
    ensures
        wrote(since(present, Shape::Field(4)), where_present(present, Tree::Bytes(x@)), old(v)@, final(v)@, r),
{
    proof {
        reveal(since);
        reveal(where_present);
    }
    if present {
        return put32(v, x.as_slice());
    }
    assert(v@ =~= old(v)@ + render(since(present, Shape::Field(4)), where_present(present, Tree::Bytes(x@))));
    Ok(())
}

/// An optional field that only some layouts write.
pub fn take_opt32_if(present: bool, buf: &[u8], position: &mut usize) -> (r: Result<Option<Vec<u8>>, Error>)
    ensures
        match r {
            Ok(x) => parse(since(present, maybe(Shape::Field(4))), buf@, *old(position) as int) == Some((where_present(present, maybe_tree(bytes_view(x))), *final(position) as int))
                && (!present ==> x is None),
            Err(e) => e == Error::Malformed && parse(since(present, maybe(Shape::Field(4))), buf@, *old(position) as int) is None,
        },
{
    proof {
        reveal(since);
        reveal(where_present);
    }
    if present {
        take_opt32(buf, position)
    } else {
        Ok(None)
    }
}

pub fn put_opt32_if(present: bool, x: &Option<Vec<u8>>, v: &mut Vec<u8>) -> (r: Result<(), Error>)
    ensures
        wrote(since(present, maybe(Shape::Field(4))), where_present(present, maybe_tree(bytes_view(*x))), old(v)@, final(v)@, r),
{
    proof {
        reveal(since);
        reveal(where_present);
    }
    if present {
        return put_opt32(v, x);
    }
    assert(v@ =~= old(v)@ + render(since(present, maybe(Shape::Field(4))), where_present(present, maybe_tree(bytes_view(*x)))));
    Ok(())
}

/// A flag that only some layouts write.
pub fn take_bool_if(present: bool, stand_in: bool, buf: &[u8], position: &mut usize) -> (r: Result<bool, Error>)
    ensures
        match r {
            Ok(x) => parse(since(present, maybe(Shape::Nothing)), buf@, *old(position) as int) == Some((where_present(present, flag(x)), *final(position) as int))
                && (!present ==> x == stand_in),
            Err(e) => e == Error::Malformed && parse(since(present, maybe(Shape::Nothing)), buf@, *old(position) as int) is None,
        },
{
    proof {
        reveal(since);
        reveal(where_present);
    }
    if present {
        take_bool(buf, position)
    } else {
        Ok(stand_in)
    }
}

pub fn put_flag_if(present: bool, x: bool, v: &mut Vec<u8>)
    ensures
        final(v)@ == old(v)@ + render(since(present, maybe(Shape::Nothing)), where_present(present, flag(x))),
        size_error(since(present, maybe(Shape::Nothing)), where_present(present, flag(x))) is None,
{
    proof {
        reveal_with_fuel(size_error, 3);
        reveal(since);
        reveal(where_present);
    }
    if present {
        put_flag(v, x);
    }
    assert(v@ =~= old(v)@ + render(since(present, maybe(Shape::Nothing)), where_present(present, flag(x))));
}

/// Counted records that only some layouts write.
pub fn take_many_if<R: Framed>(present: bool, buf: &[u8], position: &mut usize, maximum: usize, layout: Layout) -> (r: Result<Vec<R>, Error>)
    ensures
        match r {
            Ok(x) => parse(since(present, Shape::Many(maximum as nat, Box::new(R::shape(layout)))), buf@, *old(position) as int)
                == Some((where_present(present, Tree::Many(trees::<R>(views(x@), layout))), *final(position) as int))
                && (!present ==> x@.len() == 0)
                && x@.len() <= maximum
                && all_plain::<R>(views(x@), layout),
            Err(e) => e == Error::Malformed
                && parse(since(present, Shape::Many(maximum as nat, Box::new(R::shape(layout)))), buf@, *old(position) as int) is None,
        },
{
    proof {
        reveal(since);
        reveal(where_present);
    }
    if present {
        take_many::<R>(buf, position, maximum, layout)
    } else {
        Ok(Vec::new())
    }
}

pub(crate) fn put_many_if<R: Framed>(present: bool, items: &Vec<R>, out: &mut Vec<u8>, Ghost(maximum): Ghost<nat>, layout: Layout) -> (r: Result<(), Error>)
    ensures
        wrote(
            since(present, Shape::Many(maximum, Box::new(R::shape(layout)))),
            where_present(present, Tree::Many(trees::<R>(views(items@), layout))),
            old(out)@,
            final(out)@,
            r,
        ),
{
    proof {
        reveal(since);
        reveal(where_present);
    }
    if present {
        return put_many(items, out, Ghost(maximum), layout);
    }
    assert(out@ =~= old(out)@ + render(
        since(present, Shape::Many(maximum, Box::new(R::shape(layout)))),
        where_present(present, Tree::Many(trees::<R>(views(items@), layout))),
    ));
    Ok(())
}

/// A byte that is one for yes and two for no.
pub open spec fn choice() -> Shape {
    Shape::Either(1, Box::new(Shape::Nothing), 2, Box::new(Shape::Nothing))
}

pub open spec fn chosen(b: bool) -> Tree {
    Tree::Either(if b { 1 } else { 2 }, Box::new(Tree::Nothing))
}

pub fn take_choice(buf: &[u8], position: &mut usize) -> (r: Result<bool, Error>)
    ensures
        match r {
            Ok(x) => parse(choice(), buf@, *old(position) as int) == Some((chosen(x), *final(position) as int)),
            Err(e) => e == Error::Malformed && parse(choice(), buf@, *old(position) as int) is None,
        },
{
    proof {
        reveal_with_fuel(parse, 3);
    }
    match take_u8(buf, position)? {
        1 => Ok(true),
        2 => Ok(false),
        _ => Err(Error::Malformed),
    }
}

pub fn put_choice(v: &mut Vec<u8>, yes: bool)
    ensures
        final(v)@ == old(v)@ + render(choice(), chosen(yes)),
        size_error(choice(), chosen(yes)) is None,
{
    proof {
        reveal_with_fuel(size_error, 3);
        reveal_with_fuel(render, 3);
        lemma_one_byte(if yes { 1u8 } else { 2u8 });
    }
    put_u8(v, if yes { 1 } else { 2 });
    assert(v@ =~= old(v)@ + render(choice(), chosen(yes)));
}

/// A choice that only some layouts write.
pub fn take_choice_if(present: bool, stand_in: bool, buf: &[u8], position: &mut usize) -> (r: Result<bool, Error>)
    ensures
        match r {
            Ok(x) => parse(since(present, choice()), buf@, *old(position) as int) == Some((where_present(present, chosen(x)), *final(position) as int))
                && (!present ==> x == stand_in),
            Err(e) => e == Error::Malformed && parse(since(present, choice()), buf@, *old(position) as int) is None,
        },
{
    proof {
        reveal(since);
        reveal(where_present);
    }
    if present {
        take_choice(buf, position)
    } else {
        Ok(stand_in)
    }
}

pub fn put_choice_if(present: bool, x: bool, v: &mut Vec<u8>)
    ensures
        final(v)@ == old(v)@ + render(since(present, choice()), where_present(present, chosen(x))),
        size_error(since(present, choice()), where_present(present, chosen(x))) is None,
{
    proof {
        reveal_with_fuel(size_error, 3);
        reveal(since);
        reveal(where_present);
    }
    if present {
        put_choice(v, x);
    }
    assert(v@ =~= old(v)@ + render(since(present, choice()), where_present(present, chosen(x))));
}

/// A record that a flag byte says is there.
pub open spec fn maybe_framed<R: Framed>(o: Option<R::V>, layout: Layout) -> Tree {
    match o {
        Some(x) => present(R::tree(x, layout)),
        None => absent(),
    }
}

pub open spec fn maybe_view<R: View>(o: Option<R>) -> Option<R::V> {
    match o {
        Some(x) => Some(x@),
        None => None,
    }
}

pub fn take_opt<R: Framed>(buf: &[u8], position: &mut usize, layout: Layout) -> (r: Result<Option<R>, Error>)
    ensures
        match r {
            Ok(x) => parse(maybe(R::shape(layout)), buf@, *old(position) as int) == Some((maybe_framed::<R>(maybe_view(x), layout), *final(position) as int))
                && (x is Some ==> R::plain(x->0@, layout)),
            Err(e) => e == Error::Malformed && parse(maybe(R::shape(layout)), buf@, *old(position) as int) is None,
        },
{
    proof {
        reveal_with_fuel(parse, 2);
    }
    if take_flag(buf, position)? {
        Ok(Some(R::take_from(buf, position, layout)?))
    } else {
        Ok(None)
    }
}

pub fn put_opt<R: Framed>(x: &Option<R>, v: &mut Vec<u8>, layout: Layout) -> (r: Result<(), Error>)
    ensures
        wrote(maybe(R::shape(layout)), maybe_framed::<R>(maybe_view(*x), layout), old(v)@, final(v)@, r),
{
    proof {
        reveal_with_fuel(render, 2);
        reveal_with_fuel(size_error, 2);
        lemma_one_byte(0);
        lemma_one_byte(1);
    }
    match x {
        Some(item) => {
            put_u8(v, 1);
            item.put_into(v, layout)?;
        },
        None => {
            put_u8(v, 0);
        },
    }
    assert(v@ =~= old(v)@ + render(maybe(R::shape(layout)), maybe_framed::<R>(maybe_view(*x), layout)));
    Ok(())
}

/// A number that a byte of one says is there, and a byte of two is not.
pub open spec fn timed() -> Shape {
    Shape::Either(1, Box::new(Shape::Number(8)), 2, Box::new(Shape::Nothing))
}

pub open spec fn timed_tree(o: Option<u64>) -> Tree {
    match o {
        Some(x) => Tree::Either(1, Box::new(Tree::Number(x as nat))),
        None => Tree::Either(2, Box::new(Tree::Nothing)),
    }
}

/// Such a number that only some layouts write.
pub fn take_timed_if(present: bool, buf: &[u8], position: &mut usize) -> (r: Result<Option<u64>, Error>)
    ensures
        match r {
            Ok(x) => parse(since(present, timed()), buf@, *old(position) as int) == Some((where_present(present, timed_tree(x)), *final(position) as int))
                && (!present ==> x is None),
            Err(e) => e == Error::Malformed && parse(since(present, timed()), buf@, *old(position) as int) is None,
        },
{
    proof {
        reveal(since);
        reveal(where_present);
    }
    proof {
        reveal_with_fuel(parse, 3);
    }
    if !present {
        return Ok(None);
    }
    match take_u8(buf, position)? {
        1 => Ok(Some(take_u64(buf, position)?)),
        2 => Ok(None),
        _ => Err(Error::Malformed),
    }
}

pub fn put_timed_if(present: bool, x: Option<u64>, v: &mut Vec<u8>)
    ensures
        final(v)@ == old(v)@ + render(since(present, timed()), where_present(present, timed_tree(x))),
        size_error(since(present, timed()), where_present(present, timed_tree(x))) is None,
{
    proof {
        reveal_with_fuel(size_error, 3);
        reveal(since);
        reveal(where_present);
    }
    proof {
        reveal_with_fuel(render, 3);
        lemma_one_byte(1);
        lemma_one_byte(2);
    }
    if present {
        match x {
            Some(n) => {
                put_u8(v, 1);
                put_u64(v, n);
            },
            None => {
                put_u8(v, 2);
            },
        }
    }
    assert(v@ =~= old(v)@ + render(since(present, timed()), where_present(present, timed_tree(x))));
}

/// Texts with the same encoding are the same.
pub proof fn lemma_same_text(a: Seq<char>, b: Seq<char>)
    requires
        encode_utf8(a) == encode_utf8(b),
    ensures
        a == b,
{
    assert(decode_utf8(encode_utf8(a)) == a);
    assert(decode_utf8(encode_utf8(b)) == b);
}

} // verus!
