//! The parts of a node archive, as they stand in each archive version.

use vstd::prelude::*;
use vstd::utf8::encode_utf8;
use crate::bytes::{copy_bytes, lemma_be_limits, put_bytes, same_bytes, same_id, same_id16};
use crate::error::Error;
use crate::grammar::{both, conforms, flag, maybe, render, then, written_as, Shape, Tree};
use crate::model::{views, Cell, CellView};
use crate::record::{all_bounded, all_plain, bytes_view, choice, chosen, conforms_then, id_view, lemma_many_fits, lemma_same_array, lemma_same_text, lemma_same_trees, maybe_framed, maybe_tree, maybe_view, parse_then, put16, put32, put32_if, put_choice, put_choice_if, put_flag_if, put_many, put_many_if, put_opt, put_opt32, put_opt32_if, put_opt_id, put_opt_text, put_text16, put_timed_if, put_u16, put_u64, put_u64_if, put_u8, render_then, since, size_error, size_then, take16, take32, take32_if, take_array, take_bool_if, take_byte, take_choice, take_choice_if, take_many, take_many_if, take_opt, take_opt32, take_opt32_if, take_opt_id, take_opt_text, take_string16, take_timed_if, take_u16, take_u64, take_u64_if, text_bytes, timed, timed_tree, trees, where_present, written_as_then, Framed, Layout};
use crate::table::Key;

verus! {

broadcast use {vstd::utf8::encode_utf8_decode_utf8, vstd::utf8::decode_utf8_encode_utf8};

impl Framed for Cell {
    open spec fn shape(layout: Layout) -> Shape {
        then(
            Shape::Number(1),
            then(Shape::Number(1), then(Shape::Number(1), then(Shape::Number(2), Shape::Field(4)))),
        )
    }

    open spec fn tree(v: CellView, layout: Layout) -> Tree {
        both(
            Tree::Number(v.version as nat),
            both(
                Tree::Number(v.raw_type as nat),
                both(
                    Tree::Number(v.flags as nat),
                    both(Tree::Number(v.round_ctr as nat), Tree::Bytes(v.payload)),
                ),
            ),
        )
    }

    open spec fn plain(v: CellView, layout: Layout) -> bool {
        true
    }

    proof fn same_tree(a: CellView, b: CellView, layout: Layout) {
        assert(a == b);
    }

    open spec fn bounded(v: CellView, layout: Layout) -> bool {
        true
    }

    proof fn fits(v: CellView, layout: Layout) {
        broadcast use {conforms_then, size_then, written_as_then};

        lemma_be_limits();
    }

    fn take_from(buf: &[u8], position: &mut usize, layout: Layout) -> (r: Result<Self, Error>) {
        broadcast use parse_then;

        let version: u8 = take_byte(buf, position)?;
        let raw_type: u8 = take_byte(buf, position)?;
        let flags: u8 = take_byte(buf, position)?;
        let round_ctr: u16 = take_u16(buf, position)?;
        let payload = copy_bytes(take32(buf, position)?);
        Ok(Cell { version, raw_type, flags, round_ctr, payload })
    }

    fn put_into(&self, out: &mut Vec<u8>, layout: Layout) -> (r: Result<(), Error>) {
        broadcast use {render_then, size_then};

        put_u8(out, self.version);
        put_u8(out, self.raw_type);
        put_u8(out, self.flags);
        put_u16(out, self.round_ctr);
        put32(out, self.payload.as_slice())?;
        assert(out@ =~= old(out)@ + render(Self::shape(layout), Self::tree(self@, layout)));
        Ok(())
    }
}

/// A direct session.
#[derive(Debug)]
pub struct SessionFrame {
    pub peer: Vec<u8>,
    /// The time that is left to confirm a session not yet confirmed.
    pub unconfirmed: Option<u64>,
    pub sealed: Vec<u8>,
}

pub struct SessionView {
    pub peer: Seq<u8>,
    pub unconfirmed: Option<u64>,
    pub sealed: Seq<u8>,
}

impl View for SessionFrame {
    type V = SessionView;

    open spec fn view(&self) -> SessionView {
        SessionView {
            peer: self.peer@,
            unconfirmed: self.unconfirmed,
            sealed: self.sealed@,
        }
    }
}

impl Framed for SessionFrame {
    open spec fn shape(layout: Layout) -> Shape {
        then(Shape::Field(2), then(since(layout.version >= 5, timed()), Shape::Field(4)))
    }

    open spec fn tree(v: SessionView, layout: Layout) -> Tree {
        both(
            Tree::Bytes(v.peer),
            both(where_present(layout.version >= 5, timed_tree(v.unconfirmed)), Tree::Bytes(v.sealed)),
        )
    }

    open spec fn plain(v: SessionView, layout: Layout) -> bool {
        (layout.version >= 5 || v.unconfirmed is None)
    }

    proof fn same_tree(a: SessionView, b: SessionView, layout: Layout) {
        reveal(since);
        reveal(where_present);
        assert(a == b);
    }

    open spec fn bounded(v: SessionView, layout: Layout) -> bool {
        true
    }

    proof fn fits(v: SessionView, layout: Layout) {
        broadcast use {conforms_then, size_then, written_as_then};

        lemma_be_limits();
        reveal_with_fuel(conforms, 3);
        reveal_with_fuel(written_as, 3);
        reveal_with_fuel(size_error, 3);
        reveal(since);
        reveal(where_present);
    }

    fn take_from(buf: &[u8], position: &mut usize, layout: Layout) -> (r: Result<Self, Error>) {
        broadcast use parse_then;

        let peer = copy_bytes(take16(buf, position)?);
        let unconfirmed = take_timed_if(layout.version >= 5, buf, position)?;
        let sealed = copy_bytes(take32(buf, position)?);
        Ok(SessionFrame { peer, unconfirmed, sealed })
    }

    fn put_into(&self, out: &mut Vec<u8>, layout: Layout) -> (r: Result<(), Error>) {
        broadcast use {render_then, size_then};

        put16(out, self.peer.as_slice())?;
        put_timed_if(layout.version >= 5, self.unconfirmed, out);
        put32(out, self.sealed.as_slice())?;
        assert(out@ =~= old(out)@ + render(Self::shape(layout), Self::tree(self@, layout)));
        Ok(())
    }
}

/// A peer's contact card.
#[derive(Debug)]
pub struct PeerRouteFrame {
    pub peer: Vec<u8>,
    pub card: Vec<u8>,
    pub generation: u64,
}

pub struct PeerRouteView {
    pub peer: Seq<u8>,
    pub card: Seq<u8>,
    pub generation: u64,
}

impl View for PeerRouteFrame {
    type V = PeerRouteView;

    open spec fn view(&self) -> PeerRouteView {
        PeerRouteView {
            peer: self.peer@,
            card: self.card@,
            generation: self.generation,
        }
    }
}

impl Framed for PeerRouteFrame {
    open spec fn shape(layout: Layout) -> Shape {
        then(Shape::Field(2), then(Shape::Field(4), since(layout.version >= 6, Shape::Number(8))))
    }

    open spec fn tree(v: PeerRouteView, layout: Layout) -> Tree {
        both(
            Tree::Bytes(v.peer),
            both(Tree::Bytes(v.card), where_present(layout.version >= 6, Tree::Number(v.generation as nat))),
        )
    }

    open spec fn plain(v: PeerRouteView, layout: Layout) -> bool {
        (layout.version >= 6 || v.generation == 0)
    }

    proof fn same_tree(a: PeerRouteView, b: PeerRouteView, layout: Layout) {
        reveal(since);
        reveal(where_present);
        assert(a == b);
    }

    open spec fn bounded(v: PeerRouteView, layout: Layout) -> bool {
        true
    }

    proof fn fits(v: PeerRouteView, layout: Layout) {
        broadcast use {conforms_then, size_then, written_as_then};

        lemma_be_limits();
        reveal(since);
        reveal(where_present);
    }

    fn take_from(buf: &[u8], position: &mut usize, layout: Layout) -> (r: Result<Self, Error>) {
        broadcast use parse_then;

        let peer = copy_bytes(take16(buf, position)?);
        let card = copy_bytes(take32(buf, position)?);
        let generation: u64 = take_u64_if(layout.version >= 6, 0, buf, position)?;
        Ok(PeerRouteFrame { peer, card, generation })
    }

    fn put_into(&self, out: &mut Vec<u8>, layout: Layout) -> (r: Result<(), Error>) {
        broadcast use {render_then, size_then};

        put16(out, self.peer.as_slice())?;
        put32(out, self.card.as_slice())?;
        put_u64_if(layout.version >= 6, self.generation, out);
        assert(out@ =~= old(out)@ + render(Self::shape(layout), Self::tree(self@, layout)));
        Ok(())
    }
}

/// Cells for a peer.
#[derive(Debug)]
pub struct DeliveryFrame {
    pub card: Vec<u8>,
    /// The private card of the relay, in the versions that name one.
    pub relay: Vec<u8>,
    pub cells: Vec<Cell>,
}

pub struct DeliveryView {
    pub card: Seq<u8>,
    pub relay: Seq<u8>,
    pub cells: Seq<CellView>,
}

impl View for DeliveryFrame {
    type V = DeliveryView;

    open spec fn view(&self) -> DeliveryView {
        DeliveryView {
            card: self.card@,
            relay: self.relay@,
            cells: views(self.cells@),
        }
    }
}

impl Framed for DeliveryFrame {
    open spec fn shape(layout: Layout) -> Shape {
        then(
            Shape::Field(4),
            then(since(layout.version < 6, Shape::Field(4)), Shape::Many(2, Box::new(Cell::shape(layout)))),
        )
    }

    open spec fn tree(v: DeliveryView, layout: Layout) -> Tree {
        both(
            Tree::Bytes(v.card),
            both(
                where_present(layout.version < 6, Tree::Bytes(v.relay)),
                Tree::Many(trees::<Cell>(v.cells, layout)),
            ),
        )
    }

    open spec fn plain(v: DeliveryView, layout: Layout) -> bool {
        &&& (layout.version < 6 || v.relay.len() == 0)
        &&& all_plain::<Cell>(v.cells, layout)
    }

    proof fn same_tree(a: DeliveryView, b: DeliveryView, layout: Layout) {
        reveal(since);
        reveal(where_present);
        assert(a.relay =~= b.relay);
        lemma_same_trees::<Cell>(a.cells, b.cells, layout);
        assert(a == b);
    }

    open spec fn bounded(v: DeliveryView, layout: Layout) -> bool {
        all_bounded::<Cell>(v.cells, 2 as nat, layout)
    }

    proof fn fits(v: DeliveryView, layout: Layout) {
        broadcast use {conforms_then, size_then, written_as_then};

        reveal(since);
        reveal(where_present);
        lemma_many_fits::<Cell>(v.cells, 2 as nat, layout);
    }

    fn take_from(buf: &[u8], position: &mut usize, layout: Layout) -> (r: Result<Self, Error>) {
        broadcast use parse_then;

        let card = copy_bytes(take32(buf, position)?);
        let relay = take32_if(layout.version < 6, buf, position)?;
        let cells = take_many::<Cell>(buf, position, 2, layout)?;
        Ok(DeliveryFrame { card, relay, cells })
    }

    fn put_into(&self, out: &mut Vec<u8>, layout: Layout) -> (r: Result<(), Error>) {
        broadcast use {render_then, size_then};

        put32(out, self.card.as_slice())?;
        put32_if(layout.version < 6, &self.relay, out)?;
        put_many(&self.cells, out, Ghost(2 as nat), layout)?;
        assert(out@ =~= old(out)@ + render(Self::shape(layout), Self::tree(self@, layout)));
        Ok(())
    }
}

/// A message that waits for its acknowledgement.
#[derive(Debug)]
pub struct PendingFrame {
    pub message_id: [u8; 16],
    pub retry_ms: u64,
    pub expiry_ms: u64,
    pub sequence: u64,
    pub logical: Option<Vec<u8>>,
    pub application_event: bool,
    pub delivery: DeliveryFrame,
}

pub struct PendingView {
    pub message_id: [u8; 16],
    pub retry_ms: u64,
    pub expiry_ms: u64,
    pub sequence: u64,
    pub logical: Option<Seq<u8>>,
    pub application_event: bool,
    pub delivery: DeliveryView,
}

impl View for PendingFrame {
    type V = PendingView;

    open spec fn view(&self) -> PendingView {
        PendingView {
            message_id: self.message_id,
            retry_ms: self.retry_ms,
            expiry_ms: self.expiry_ms,
            sequence: self.sequence,
            logical: bytes_view(self.logical),
            application_event: self.application_event,
            delivery: self.delivery@,
        }
    }
}

impl Framed for PendingFrame {
    open spec fn shape(layout: Layout) -> Shape {
        then(
            Shape::Fixed(16),
            then(
                Shape::Number(8),
                then(
                    Shape::Number(8),
                    then(
                        since(layout.version >= 5, Shape::Number(8)),
                        then(
                            since(layout.version >= 5, maybe(Shape::Field(4))),
                            then(
                                since(layout.version >= 6, maybe(Shape::Nothing)),
                                DeliveryFrame::shape(layout),
                            ),
                        ),
                    ),
                ),
            ),
        )
    }

    open spec fn tree(v: PendingView, layout: Layout) -> Tree {
        both(
            Tree::Bytes(v.message_id@),
            both(
                Tree::Number(v.retry_ms as nat),
                both(
                    Tree::Number(v.expiry_ms as nat),
                    both(
                        where_present(layout.version >= 5, Tree::Number(v.sequence as nat)),
                        both(
                            where_present(layout.version >= 5, maybe_tree(v.logical)),
                            both(
                                where_present(layout.version >= 6, flag(v.application_event)),
                                DeliveryFrame::tree(v.delivery, layout),
                            ),
                        ),
                    ),
                ),
            ),
        )
    }

    open spec fn plain(v: PendingView, layout: Layout) -> bool {
        &&& (layout.version >= 5 || v.sequence == 0)
        &&& (layout.version >= 5 || v.logical is None)
        &&& (layout.version >= 6 || v.application_event == true)
        &&& DeliveryFrame::plain(v.delivery, layout)
    }

    proof fn same_tree(a: PendingView, b: PendingView, layout: Layout) {
        reveal(since);
        reveal(where_present);
        lemma_same_array::<16>(a.message_id, b.message_id);
        DeliveryFrame::same_tree(a.delivery, b.delivery, layout);
        assert(a == b);
    }

    open spec fn bounded(v: PendingView, layout: Layout) -> bool {
        DeliveryFrame::bounded(v.delivery, layout)
    }

    proof fn fits(v: PendingView, layout: Layout) {
        broadcast use {conforms_then, size_then, written_as_then};

        lemma_be_limits();
        reveal_with_fuel(conforms, 3);
        reveal_with_fuel(written_as, 3);
        reveal_with_fuel(size_error, 3);
        reveal(since);
        reveal(where_present);
        DeliveryFrame::fits(v.delivery, layout);
    }

    fn take_from(buf: &[u8], position: &mut usize, layout: Layout) -> (r: Result<Self, Error>) {
        broadcast use parse_then;

        let message_id = take_array::<16>(buf, position)?;
        let retry_ms: u64 = take_u64(buf, position)?;
        let expiry_ms: u64 = take_u64(buf, position)?;
        let sequence: u64 = take_u64_if(layout.version >= 5, 0, buf, position)?;
        let logical = take_opt32_if(layout.version >= 5, buf, position)?;
        let application_event = take_bool_if(layout.version >= 6, true, buf, position)?;
        let delivery = DeliveryFrame::take_from(buf, position, layout)?;
        Ok(PendingFrame { message_id, retry_ms, expiry_ms, sequence, logical, application_event, delivery })
    }

    #[verifier::rlimit(50)]
    fn put_into(&self, out: &mut Vec<u8>, layout: Layout) -> (r: Result<(), Error>) {
        broadcast use {render_then, size_then};

        put_bytes(out, &self.message_id);
        put_u64(out, self.retry_ms);
        put_u64(out, self.expiry_ms);
        put_u64_if(layout.version >= 5, self.sequence, out);
        put_opt32_if(layout.version >= 5, &self.logical, out)?;
        put_flag_if(layout.version >= 6, self.application_event, out);
        self.delivery.put_into(out, layout)?;
        assert(out@ =~= old(out)@ + render(Self::shape(layout), Self::tree(self@, layout)));
        Ok(())
    }
}

/// A frame that was taken, with its answer.
#[derive(Debug)]
pub struct ProcessedFrame {
    pub peer: Vec<u8>,
    pub counter: u64,
    pub frame_hash: [u8; 32],
    pub delivery: DeliveryFrame,
}

pub struct ProcessedView {
    pub peer: Seq<u8>,
    pub counter: u64,
    pub frame_hash: [u8; 32],
    pub delivery: DeliveryView,
}

impl View for ProcessedFrame {
    type V = ProcessedView;

    open spec fn view(&self) -> ProcessedView {
        ProcessedView {
            peer: self.peer@,
            counter: self.counter,
            frame_hash: self.frame_hash,
            delivery: self.delivery@,
        }
    }
}

impl Framed for ProcessedFrame {
    open spec fn shape(layout: Layout) -> Shape {
        then(Shape::Field(2), then(Shape::Number(8), then(Shape::Fixed(32), DeliveryFrame::shape(layout))))
    }

    open spec fn tree(v: ProcessedView, layout: Layout) -> Tree {
        both(
            Tree::Bytes(v.peer),
            both(
                Tree::Number(v.counter as nat),
                both(Tree::Bytes(v.frame_hash@), DeliveryFrame::tree(v.delivery, layout)),
            ),
        )
    }

    open spec fn plain(v: ProcessedView, layout: Layout) -> bool {
        DeliveryFrame::plain(v.delivery, layout)
    }

    proof fn same_tree(a: ProcessedView, b: ProcessedView, layout: Layout) {
        lemma_same_array::<32>(a.frame_hash, b.frame_hash);
        DeliveryFrame::same_tree(a.delivery, b.delivery, layout);
        assert(a == b);
    }

    open spec fn bounded(v: ProcessedView, layout: Layout) -> bool {
        DeliveryFrame::bounded(v.delivery, layout)
    }

    proof fn fits(v: ProcessedView, layout: Layout) {
        broadcast use {conforms_then, size_then, written_as_then};

        lemma_be_limits();
        DeliveryFrame::fits(v.delivery, layout);
    }

    fn take_from(buf: &[u8], position: &mut usize, layout: Layout) -> (r: Result<Self, Error>) {
        broadcast use parse_then;

        let peer = copy_bytes(take16(buf, position)?);
        let counter: u64 = take_u64(buf, position)?;
        let frame_hash = take_array::<32>(buf, position)?;
        let delivery = DeliveryFrame::take_from(buf, position, layout)?;
        Ok(ProcessedFrame { peer, counter, frame_hash, delivery })
    }

    fn put_into(&self, out: &mut Vec<u8>, layout: Layout) -> (r: Result<(), Error>) {
        broadcast use {render_then, size_then};

        put16(out, self.peer.as_slice())?;
        put_u64(out, self.counter);
        put_bytes(out, &self.frame_hash);
        self.delivery.put_into(out, layout)?;
        assert(out@ =~= old(out)@ + render(Self::shape(layout), Self::tree(self@, layout)));
        Ok(())
    }
}

/// The numbers at the head of an archive.
#[derive(Debug)]
pub struct HeadFrame {
    pub exported_ms: u64,
    pub next_direct_sequence: u64,
    pub local_contact_generation: u64,
}

pub struct HeadView {
    pub exported_ms: u64,
    pub next_direct_sequence: u64,
    pub local_contact_generation: u64,
}

impl View for HeadFrame {
    type V = HeadView;

    open spec fn view(&self) -> HeadView {
        HeadView {
            exported_ms: self.exported_ms,
            next_direct_sequence: self.next_direct_sequence,
            local_contact_generation: self.local_contact_generation,
        }
    }
}

impl Framed for HeadFrame {
    open spec fn shape(layout: Layout) -> Shape {
        then(
            Shape::Number(8),
            then(since(layout.version >= 5, Shape::Number(8)), since(layout.version >= 6, Shape::Number(8))),
        )
    }

    open spec fn tree(v: HeadView, layout: Layout) -> Tree {
        both(
            Tree::Number(v.exported_ms as nat),
            both(
                where_present(layout.version >= 5, Tree::Number(v.next_direct_sequence as nat)),
                where_present(layout.version >= 6, Tree::Number(v.local_contact_generation as nat)),
            ),
        )
    }

    open spec fn plain(v: HeadView, layout: Layout) -> bool {
        &&& (layout.version >= 5 || v.next_direct_sequence == 1)
        &&& (layout.version >= 6 || v.local_contact_generation == 1)
    }

    proof fn same_tree(a: HeadView, b: HeadView, layout: Layout) {
        reveal(since);
        reveal(where_present);
        assert(a == b);
    }

    open spec fn bounded(v: HeadView, layout: Layout) -> bool {
        true
    }

    proof fn fits(v: HeadView, layout: Layout) {
        broadcast use {conforms_then, size_then, written_as_then};

        lemma_be_limits();
        reveal(since);
        reveal(where_present);
    }

    fn take_from(buf: &[u8], position: &mut usize, layout: Layout) -> (r: Result<Self, Error>) {
        broadcast use parse_then;

        let exported_ms: u64 = take_u64(buf, position)?;
        let next_direct_sequence: u64 = take_u64_if(layout.version >= 5, 1, buf, position)?;
        let local_contact_generation: u64 = take_u64_if(layout.version >= 6, 1, buf, position)?;
        Ok(HeadFrame { exported_ms, next_direct_sequence, local_contact_generation })
    }

    fn put_into(&self, out: &mut Vec<u8>, layout: Layout) -> (r: Result<(), Error>) {
        broadcast use {render_then, size_then};

        put_u64(out, self.exported_ms);
        put_u64_if(layout.version >= 5, self.next_direct_sequence, out);
        put_u64_if(layout.version >= 6, self.local_contact_generation, out);
        assert(out@ =~= old(out)@ + render(Self::shape(layout), Self::tree(self@, layout)));
        Ok(())
    }
}

/// The head of an archive and its direct journals.
#[derive(Debug)]
pub struct CoreFrame {
    pub head: HeadFrame,
    pub sessions: Vec<SessionFrame>,
    pub peer_routes: Vec<PeerRouteFrame>,
    pub pending: Vec<PendingFrame>,
    pub acks: Vec<DeliveryFrame>,
    pub processed: Vec<ProcessedFrame>,
}

pub struct CoreView {
    pub head: HeadView,
    pub sessions: Seq<SessionView>,
    pub peer_routes: Seq<PeerRouteView>,
    pub pending: Seq<PendingView>,
    pub acks: Seq<DeliveryView>,
    pub processed: Seq<ProcessedView>,
}

impl View for CoreFrame {
    type V = CoreView;

    open spec fn view(&self) -> CoreView {
        CoreView {
            head: self.head@,
            sessions: views(self.sessions@),
            peer_routes: views(self.peer_routes@),
            pending: views(self.pending@),
            acks: views(self.acks@),
            processed: views(self.processed@),
        }
    }
}

impl Framed for CoreFrame {
    open spec fn shape(layout: Layout) -> Shape {
        then(
            HeadFrame::shape(layout),
            then(
                Shape::Many(8192, Box::new(SessionFrame::shape(layout))),
                then(
                    Shape::Many(8192, Box::new(PeerRouteFrame::shape(layout))),
                    then(
                        Shape::Many(8192, Box::new(PendingFrame::shape(layout))),
                        then(
                            Shape::Many(8192, Box::new(DeliveryFrame::shape(layout))),
                            Shape::Many(8192, Box::new(ProcessedFrame::shape(layout))),
                        ),
                    ),
                ),
            ),
        )
    }

    open spec fn tree(v: CoreView, layout: Layout) -> Tree {
        both(
            HeadFrame::tree(v.head, layout),
            both(
                Tree::Many(trees::<SessionFrame>(v.sessions, layout)),
                both(
                    Tree::Many(trees::<PeerRouteFrame>(v.peer_routes, layout)),
                    both(
                        Tree::Many(trees::<PendingFrame>(v.pending, layout)),
                        both(
                            Tree::Many(trees::<DeliveryFrame>(v.acks, layout)),
                            Tree::Many(trees::<ProcessedFrame>(v.processed, layout)),
                        ),
                    ),
                ),
            ),
        )
    }

    open spec fn plain(v: CoreView, layout: Layout) -> bool {
        &&& HeadFrame::plain(v.head, layout)
        &&& all_plain::<SessionFrame>(v.sessions, layout)
        &&& all_plain::<PeerRouteFrame>(v.peer_routes, layout)
        &&& all_plain::<PendingFrame>(v.pending, layout)
        &&& all_plain::<DeliveryFrame>(v.acks, layout)
        &&& all_plain::<ProcessedFrame>(v.processed, layout)
    }

    proof fn same_tree(a: CoreView, b: CoreView, layout: Layout) {
        HeadFrame::same_tree(a.head, b.head, layout);
        lemma_same_trees::<SessionFrame>(a.sessions, b.sessions, layout);
        lemma_same_trees::<PeerRouteFrame>(a.peer_routes, b.peer_routes, layout);
        lemma_same_trees::<PendingFrame>(a.pending, b.pending, layout);
        lemma_same_trees::<DeliveryFrame>(a.acks, b.acks, layout);
        lemma_same_trees::<ProcessedFrame>(a.processed, b.processed, layout);
        assert(a == b);
    }

    open spec fn bounded(v: CoreView, layout: Layout) -> bool {
        &&& HeadFrame::bounded(v.head, layout)
        &&& all_bounded::<SessionFrame>(v.sessions, 8192 as nat, layout)
        &&& all_bounded::<PeerRouteFrame>(v.peer_routes, 8192 as nat, layout)
        &&& all_bounded::<PendingFrame>(v.pending, 8192 as nat, layout)
        &&& all_bounded::<DeliveryFrame>(v.acks, 8192 as nat, layout)
        &&& all_bounded::<ProcessedFrame>(v.processed, 8192 as nat, layout)
    }

    proof fn fits(v: CoreView, layout: Layout) {
        broadcast use {conforms_then, size_then, written_as_then};

        HeadFrame::fits(v.head, layout);
        lemma_many_fits::<SessionFrame>(v.sessions, 8192 as nat, layout);
        lemma_many_fits::<PeerRouteFrame>(v.peer_routes, 8192 as nat, layout);
        lemma_many_fits::<PendingFrame>(v.pending, 8192 as nat, layout);
        lemma_many_fits::<DeliveryFrame>(v.acks, 8192 as nat, layout);
        lemma_many_fits::<ProcessedFrame>(v.processed, 8192 as nat, layout);
    }

    fn take_from(buf: &[u8], position: &mut usize, layout: Layout) -> (r: Result<Self, Error>) {
        broadcast use parse_then;

        let head = HeadFrame::take_from(buf, position, layout)?;
        let sessions = take_many::<SessionFrame>(buf, position, 8192, layout)?;
        let peer_routes = take_many::<PeerRouteFrame>(buf, position, 8192, layout)?;
        let pending = take_many::<PendingFrame>(buf, position, 8192, layout)?;
        let acks = take_many::<DeliveryFrame>(buf, position, 8192, layout)?;
        let processed = take_many::<ProcessedFrame>(buf, position, 8192, layout)?;
        Ok(CoreFrame { head, sessions, peer_routes, pending, acks, processed })
    }

    fn put_into(&self, out: &mut Vec<u8>, layout: Layout) -> (r: Result<(), Error>) {
        broadcast use {render_then, size_then};

        self.head.put_into(out, layout)?;
        put_many(&self.sessions, out, Ghost(8192 as nat), layout)?;
        put_many(&self.peer_routes, out, Ghost(8192 as nat), layout)?;
        put_many(&self.pending, out, Ghost(8192 as nat), layout)?;
        put_many(&self.acks, out, Ghost(8192 as nat), layout)?;
        put_many(&self.processed, out, Ghost(8192 as nat), layout)?;
        assert(out@ =~= old(out)@ + render(Self::shape(layout), Self::tree(self@, layout)));
        Ok(())
    }
}

/// A channel's name and its sealed role.
#[derive(Debug)]
pub struct ChannelHead {
    pub name: String,
    pub public: bool,
    pub owner: bool,
    pub blob: Vec<u8>,
}

pub struct ChannelHeadView {
    pub name: Seq<char>,
    pub public: bool,
    pub owner: bool,
    pub blob: Seq<u8>,
}

impl View for ChannelHead {
    type V = ChannelHeadView;

    open spec fn view(&self) -> ChannelHeadView {
        ChannelHeadView {
            name: self.name@,
            public: self.public,
            owner: self.owner,
            blob: self.blob@,
        }
    }
}

impl Framed for ChannelHead {
    open spec fn shape(layout: Layout) -> Shape {
        then(Shape::Text(2), then(since(layout.version >= 3, choice()), then(choice(), Shape::Field(4))))
    }

    open spec fn tree(v: ChannelHeadView, layout: Layout) -> Tree {
        both(
            Tree::Bytes(encode_utf8(v.name)),
            both(
                where_present(layout.version >= 3, chosen(v.public)),
                both(chosen(v.owner), Tree::Bytes(v.blob)),
            ),
        )
    }

    open spec fn plain(v: ChannelHeadView, layout: Layout) -> bool {
        (layout.version >= 3 || v.public == false)
    }

    proof fn same_tree(a: ChannelHeadView, b: ChannelHeadView, layout: Layout) {
        reveal(since);
        reveal(where_present);
        lemma_same_text(a.name, b.name);
        assert(a == b);
    }

    open spec fn bounded(v: ChannelHeadView, layout: Layout) -> bool {
        true
    }

    proof fn fits(v: ChannelHeadView, layout: Layout) {
        broadcast use {conforms_then, size_then, written_as_then};

        broadcast use vstd::utf8::encode_utf8_valid_utf8;

        reveal_with_fuel(conforms, 3);
        reveal_with_fuel(written_as, 3);
        reveal_with_fuel(size_error, 3);
        reveal(since);
        reveal(where_present);
    }

    fn take_from(buf: &[u8], position: &mut usize, layout: Layout) -> (r: Result<Self, Error>) {
        broadcast use parse_then;

        let name = take_string16(buf, position)?;
        let public = take_choice_if(layout.version >= 3, false, buf, position)?;
        let owner = take_choice(buf, position)?;
        let blob = copy_bytes(take32(buf, position)?);
        Ok(ChannelHead { name, public, owner, blob })
    }

    fn put_into(&self, out: &mut Vec<u8>, layout: Layout) -> (r: Result<(), Error>) {
        broadcast use {render_then, size_then};

        put_text16(out, self.name.as_str())?;
        put_choice_if(layout.version >= 3, self.public, out);
        put_choice(out, self.owner);
        put32(out, self.blob.as_slice())?;
        assert(out@ =~= old(out)@ + render(Self::shape(layout), Self::tree(self@, layout)));
        Ok(())
    }
}

/// An identifier.
#[derive(Debug)]
pub struct IdFrame {
    pub id: [u8; 32],
}

pub struct IdView {
    pub id: [u8; 32],
}

impl View for IdFrame {
    type V = IdView;

    open spec fn view(&self) -> IdView {
        IdView {
            id: self.id,
        }
    }
}

impl Framed for IdFrame {
    open spec fn shape(layout: Layout) -> Shape {
        Shape::Fixed(32)
    }

    open spec fn tree(v: IdView, layout: Layout) -> Tree {
        Tree::Bytes(v.id@)
    }

    open spec fn plain(v: IdView, layout: Layout) -> bool {
        true
    }

    proof fn same_tree(a: IdView, b: IdView, layout: Layout) {
        lemma_same_array::<32>(a.id, b.id);
        assert(a == b);
    }

    open spec fn bounded(v: IdView, layout: Layout) -> bool {
        true
    }

    proof fn fits(v: IdView, layout: Layout) {
    }

    fn take_from(buf: &[u8], position: &mut usize, layout: Layout) -> (r: Result<Self, Error>) {
        let id = take_array::<32>(buf, position)?;
        Ok(IdFrame { id })
    }

    fn put_into(&self, out: &mut Vec<u8>, layout: Layout) -> (r: Result<(), Error>) {
        put_bytes(out, &self.id);
        assert(out@ =~= old(out)@ + render(Self::shape(layout), Self::tree(self@, layout)));
        Ok(())
    }
}

/// A name.
#[derive(Debug)]
pub struct NameFrame {
    pub name: String,
}

pub struct NameView {
    pub name: Seq<char>,
}

impl View for NameFrame {
    type V = NameView;

    open spec fn view(&self) -> NameView {
        NameView {
            name: self.name@,
        }
    }
}

impl Framed for NameFrame {
    open spec fn shape(layout: Layout) -> Shape {
        Shape::Text(2)
    }

    open spec fn tree(v: NameView, layout: Layout) -> Tree {
        Tree::Bytes(encode_utf8(v.name))
    }

    open spec fn plain(v: NameView, layout: Layout) -> bool {
        true
    }

    proof fn same_tree(a: NameView, b: NameView, layout: Layout) {
        lemma_same_text(a.name, b.name);
        assert(a == b);
    }

    open spec fn bounded(v: NameView, layout: Layout) -> bool {
        true
    }

    proof fn fits(v: NameView, layout: Layout) {
        broadcast use vstd::utf8::encode_utf8_valid_utf8;

    }

    fn take_from(buf: &[u8], position: &mut usize, layout: Layout) -> (r: Result<Self, Error>) {
        let name = take_string16(buf, position)?;
        Ok(NameFrame { name })
    }

    fn put_into(&self, out: &mut Vec<u8>, layout: Layout) -> (r: Result<(), Error>) {
        put_text16(out, self.name.as_str())?;
        assert(out@ =~= old(out)@ + render(Self::shape(layout), Self::tree(self@, layout)));
        Ok(())
    }
}

/// A peer's identity key.
#[derive(Debug)]
pub struct PeerFrame {
    pub peer: Vec<u8>,
}

pub struct PeerView {
    pub peer: Seq<u8>,
}

impl View for PeerFrame {
    type V = PeerView;

    open spec fn view(&self) -> PeerView {
        PeerView {
            peer: self.peer@,
        }
    }
}

impl Framed for PeerFrame {
    open spec fn shape(layout: Layout) -> Shape {
        Shape::Field(2)
    }

    open spec fn tree(v: PeerView, layout: Layout) -> Tree {
        Tree::Bytes(v.peer)
    }

    open spec fn plain(v: PeerView, layout: Layout) -> bool {
        true
    }

    proof fn same_tree(a: PeerView, b: PeerView, layout: Layout) {
        assert(a == b);
    }

    open spec fn bounded(v: PeerView, layout: Layout) -> bool {
        true
    }

    proof fn fits(v: PeerView, layout: Layout) {
    }

    fn take_from(buf: &[u8], position: &mut usize, layout: Layout) -> (r: Result<Self, Error>) {
        let peer = copy_bytes(take16(buf, position)?);
        Ok(PeerFrame { peer })
    }

    fn put_into(&self, out: &mut Vec<u8>, layout: Layout) -> (r: Result<(), Error>) {
        put16(out, self.peer.as_slice())?;
        assert(out@ =~= old(out)@ + render(Self::shape(layout), Self::tree(self@, layout)));
        Ok(())
    }
}

/// A sealed value.
#[derive(Debug)]
pub struct SealedFrame {
    pub sealed: Vec<u8>,
}

pub struct SealedView {
    pub sealed: Seq<u8>,
}

impl View for SealedFrame {
    type V = SealedView;

    open spec fn view(&self) -> SealedView {
        SealedView {
            sealed: self.sealed@,
        }
    }
}

impl Framed for SealedFrame {
    open spec fn shape(layout: Layout) -> Shape {
        Shape::Field(4)
    }

    open spec fn tree(v: SealedView, layout: Layout) -> Tree {
        Tree::Bytes(v.sealed)
    }

    open spec fn plain(v: SealedView, layout: Layout) -> bool {
        true
    }

    proof fn same_tree(a: SealedView, b: SealedView, layout: Layout) {
        assert(a == b);
    }

    open spec fn bounded(v: SealedView, layout: Layout) -> bool {
        true
    }

    proof fn fits(v: SealedView, layout: Layout) {
    }

    fn take_from(buf: &[u8], position: &mut usize, layout: Layout) -> (r: Result<Self, Error>) {
        let sealed = copy_bytes(take32(buf, position)?);
        Ok(SealedFrame { sealed })
    }

    fn put_into(&self, out: &mut Vec<u8>, layout: Layout) -> (r: Result<(), Error>) {
        put32(out, self.sealed.as_slice())?;
        assert(out@ =~= old(out)@ + render(Self::shape(layout), Self::tree(self@, layout)));
        Ok(())
    }
}

/// A recipient that an answer is owed by.
#[derive(Debug)]
pub struct RecipientFrame {
    pub identity: [u8; 32],
    pub route: Vec<u8>,
}

pub struct RecipientView {
    pub identity: [u8; 32],
    pub route: Seq<u8>,
}

impl View for RecipientFrame {
    type V = RecipientView;

    open spec fn view(&self) -> RecipientView {
        RecipientView {
            identity: self.identity,
            route: self.route@,
        }
    }
}

impl Framed for RecipientFrame {
    open spec fn shape(layout: Layout) -> Shape {
        then(Shape::Fixed(32), Shape::Field(4))
    }

    open spec fn tree(v: RecipientView, layout: Layout) -> Tree {
        both(Tree::Bytes(v.identity@), Tree::Bytes(v.route))
    }

    open spec fn plain(v: RecipientView, layout: Layout) -> bool {
        true
    }

    proof fn same_tree(a: RecipientView, b: RecipientView, layout: Layout) {
        lemma_same_array::<32>(a.identity, b.identity);
        assert(a == b);
    }

    open spec fn bounded(v: RecipientView, layout: Layout) -> bool {
        true
    }

    proof fn fits(v: RecipientView, layout: Layout) {
        broadcast use {conforms_then, size_then, written_as_then};

    }

    fn take_from(buf: &[u8], position: &mut usize, layout: Layout) -> (r: Result<Self, Error>) {
        broadcast use parse_then;

        let identity = take_array::<32>(buf, position)?;
        let route = copy_bytes(take32(buf, position)?);
        Ok(RecipientFrame { identity, route })
    }

    fn put_into(&self, out: &mut Vec<u8>, layout: Layout) -> (r: Result<(), Error>) {
        broadcast use {render_then, size_then};

        put_bytes(out, &self.identity);
        put32(out, self.route.as_slice())?;
        assert(out@ =~= old(out)@ + render(Self::shape(layout), Self::tree(self@, layout)));
        Ok(())
    }
}

/// The recipients of a message, and those that have answered.
#[derive(Debug)]
pub struct ExpectedFrame {
    pub expected: Vec<RecipientFrame>,
    pub acknowledged: Vec<IdFrame>,
}

pub struct ExpectedView {
    pub expected: Seq<RecipientView>,
    pub acknowledged: Seq<IdView>,
}

impl View for ExpectedFrame {
    type V = ExpectedView;

    open spec fn view(&self) -> ExpectedView {
        ExpectedView {
            expected: views(self.expected@),
            acknowledged: views(self.acknowledged@),
        }
    }
}

impl Framed for ExpectedFrame {
    open spec fn shape(layout: Layout) -> Shape {
        then(
            Shape::Many(1024, Box::new(RecipientFrame::shape(layout))),
            Shape::Many(1024, Box::new(IdFrame::shape(layout))),
        )
    }

    open spec fn tree(v: ExpectedView, layout: Layout) -> Tree {
        both(
            Tree::Many(trees::<RecipientFrame>(v.expected, layout)),
            Tree::Many(trees::<IdFrame>(v.acknowledged, layout)),
        )
    }

    open spec fn plain(v: ExpectedView, layout: Layout) -> bool {
        &&& all_plain::<RecipientFrame>(v.expected, layout)
        &&& all_plain::<IdFrame>(v.acknowledged, layout)
    }

    proof fn same_tree(a: ExpectedView, b: ExpectedView, layout: Layout) {
        lemma_same_trees::<RecipientFrame>(a.expected, b.expected, layout);
        lemma_same_trees::<IdFrame>(a.acknowledged, b.acknowledged, layout);
        assert(a == b);
    }

    open spec fn bounded(v: ExpectedView, layout: Layout) -> bool {
        &&& all_bounded::<RecipientFrame>(v.expected, 1024 as nat, layout)
        &&& all_bounded::<IdFrame>(v.acknowledged, 1024 as nat, layout)
    }

    proof fn fits(v: ExpectedView, layout: Layout) {
        broadcast use {conforms_then, size_then, written_as_then};

        lemma_many_fits::<RecipientFrame>(v.expected, 1024 as nat, layout);
        lemma_many_fits::<IdFrame>(v.acknowledged, 1024 as nat, layout);
    }

    fn take_from(buf: &[u8], position: &mut usize, layout: Layout) -> (r: Result<Self, Error>) {
        broadcast use parse_then;

        let expected = take_many::<RecipientFrame>(buf, position, 1024, layout)?;
        let acknowledged = take_many::<IdFrame>(buf, position, 1024, layout)?;
        Ok(ExpectedFrame { expected, acknowledged })
    }

    fn put_into(&self, out: &mut Vec<u8>, layout: Layout) -> (r: Result<(), Error>) {
        broadcast use {render_then, size_then};

        put_many(&self.expected, out, Ghost(1024 as nat), layout)?;
        put_many(&self.acknowledged, out, Ghost(1024 as nat), layout)?;
        assert(out@ =~= old(out)@ + render(Self::shape(layout), Self::tree(self@, layout)));
        Ok(())
    }
}

/// A member and its route.
#[derive(Debug)]
pub struct MemberFrame {
    pub member: String,
    pub route: Vec<u8>,
}

pub struct MemberView {
    pub member: Seq<char>,
    pub route: Seq<u8>,
}

impl View for MemberFrame {
    type V = MemberView;

    open spec fn view(&self) -> MemberView {
        MemberView {
            member: self.member@,
            route: self.route@,
        }
    }
}

impl Framed for MemberFrame {
    open spec fn shape(layout: Layout) -> Shape {
        then(Shape::Text(2), Shape::Field(4))
    }

    open spec fn tree(v: MemberView, layout: Layout) -> Tree {
        both(Tree::Bytes(encode_utf8(v.member)), Tree::Bytes(v.route))
    }

    open spec fn plain(v: MemberView, layout: Layout) -> bool {
        true
    }

    proof fn same_tree(a: MemberView, b: MemberView, layout: Layout) {
        lemma_same_text(a.member, b.member);
        assert(a == b);
    }

    open spec fn bounded(v: MemberView, layout: Layout) -> bool {
        true
    }

    proof fn fits(v: MemberView, layout: Layout) {
        broadcast use {conforms_then, size_then, written_as_then};

        broadcast use vstd::utf8::encode_utf8_valid_utf8;

    }

    fn take_from(buf: &[u8], position: &mut usize, layout: Layout) -> (r: Result<Self, Error>) {
        broadcast use parse_then;

        let member = take_string16(buf, position)?;
        let route = copy_bytes(take32(buf, position)?);
        Ok(MemberFrame { member, route })
    }

    fn put_into(&self, out: &mut Vec<u8>, layout: Layout) -> (r: Result<(), Error>) {
        broadcast use {render_then, size_then};

        put_text16(out, self.member.as_str())?;
        put32(out, self.route.as_slice())?;
        assert(out@ =~= old(out)@ + render(Self::shape(layout), Self::tree(self@, layout)));
        Ok(())
    }
}

/// A channel message that waits for its acknowledgements.
#[derive(Debug)]
pub struct MessageFrame {
    pub message_id: [u8; 16],
    pub wire: Vec<u8>,
    pub recipients: ExpectedFrame,
}

pub struct MessageView {
    pub message_id: [u8; 16],
    pub wire: Seq<u8>,
    pub recipients: ExpectedView,
}

impl View for MessageFrame {
    type V = MessageView;

    open spec fn view(&self) -> MessageView {
        MessageView {
            message_id: self.message_id,
            wire: self.wire@,
            recipients: self.recipients@,
        }
    }
}

impl Framed for MessageFrame {
    open spec fn shape(layout: Layout) -> Shape {
        then(Shape::Fixed(16), then(Shape::Field(4), ExpectedFrame::shape(layout)))
    }

    open spec fn tree(v: MessageView, layout: Layout) -> Tree {
        both(
            Tree::Bytes(v.message_id@),
            both(Tree::Bytes(v.wire), ExpectedFrame::tree(v.recipients, layout)),
        )
    }

    open spec fn plain(v: MessageView, layout: Layout) -> bool {
        ExpectedFrame::plain(v.recipients, layout)
    }

    proof fn same_tree(a: MessageView, b: MessageView, layout: Layout) {
        lemma_same_array::<16>(a.message_id, b.message_id);
        ExpectedFrame::same_tree(a.recipients, b.recipients, layout);
        assert(a == b);
    }

    open spec fn bounded(v: MessageView, layout: Layout) -> bool {
        ExpectedFrame::bounded(v.recipients, layout)
    }

    proof fn fits(v: MessageView, layout: Layout) {
        broadcast use {conforms_then, size_then, written_as_then};

        ExpectedFrame::fits(v.recipients, layout);
    }

    fn take_from(buf: &[u8], position: &mut usize, layout: Layout) -> (r: Result<Self, Error>) {
        broadcast use parse_then;

        let message_id = take_array::<16>(buf, position)?;
        let wire = copy_bytes(take32(buf, position)?);
        let recipients = ExpectedFrame::take_from(buf, position, layout)?;
        Ok(MessageFrame { message_id, wire, recipients })
    }

    fn put_into(&self, out: &mut Vec<u8>, layout: Layout) -> (r: Result<(), Error>) {
        broadcast use {render_then, size_then};

        put_bytes(out, &self.message_id);
        put32(out, self.wire.as_slice())?;
        self.recipients.put_into(out, layout)?;
        assert(out@ =~= old(out)@ + render(Self::shape(layout), Self::tree(self@, layout)));
        Ok(())
    }
}

/// A membership commit that waits for its acknowledgements.
#[derive(Debug)]
pub struct MembershipFrame {
    pub commit_id: [u8; 16],
    pub epoch: u64,
    pub commit: Vec<u8>,
    pub recipients: ExpectedFrame,
}

pub struct MembershipView {
    pub commit_id: [u8; 16],
    pub epoch: u64,
    pub commit: Seq<u8>,
    pub recipients: ExpectedView,
}

impl View for MembershipFrame {
    type V = MembershipView;

    open spec fn view(&self) -> MembershipView {
        MembershipView {
            commit_id: self.commit_id,
            epoch: self.epoch,
            commit: self.commit@,
            recipients: self.recipients@,
        }
    }
}

impl Framed for MembershipFrame {
    open spec fn shape(layout: Layout) -> Shape {
        then(Shape::Fixed(16), then(Shape::Number(8), then(Shape::Field(4), ExpectedFrame::shape(layout))))
    }

    open spec fn tree(v: MembershipView, layout: Layout) -> Tree {
        both(
            Tree::Bytes(v.commit_id@),
            both(
                Tree::Number(v.epoch as nat),
                both(Tree::Bytes(v.commit), ExpectedFrame::tree(v.recipients, layout)),
            ),
        )
    }

    open spec fn plain(v: MembershipView, layout: Layout) -> bool {
        ExpectedFrame::plain(v.recipients, layout)
    }

    proof fn same_tree(a: MembershipView, b: MembershipView, layout: Layout) {
        lemma_same_array::<16>(a.commit_id, b.commit_id);
        ExpectedFrame::same_tree(a.recipients, b.recipients, layout);
        assert(a == b);
    }

    open spec fn bounded(v: MembershipView, layout: Layout) -> bool {
        ExpectedFrame::bounded(v.recipients, layout)
    }

    proof fn fits(v: MembershipView, layout: Layout) {
        broadcast use {conforms_then, size_then, written_as_then};

        lemma_be_limits();
        ExpectedFrame::fits(v.recipients, layout);
    }

    fn take_from(buf: &[u8], position: &mut usize, layout: Layout) -> (r: Result<Self, Error>) {
        broadcast use parse_then;

        let commit_id = take_array::<16>(buf, position)?;
        let epoch: u64 = take_u64(buf, position)?;
        let commit = copy_bytes(take32(buf, position)?);
        let recipients = ExpectedFrame::take_from(buf, position, layout)?;
        Ok(MembershipFrame { commit_id, epoch, commit, recipients })
    }

    fn put_into(&self, out: &mut Vec<u8>, layout: Layout) -> (r: Result<(), Error>) {
        broadcast use {render_then, size_then};

        put_bytes(out, &self.commit_id);
        put_u64(out, self.epoch);
        put32(out, self.commit.as_slice())?;
        self.recipients.put_into(out, layout)?;
        assert(out@ =~= old(out)@ + render(Self::shape(layout), Self::tree(self@, layout)));
        Ok(())
    }
}

/// Control traffic for a member.
#[derive(Debug)]
pub struct ControlFrame {
    pub route: Vec<u8>,
    pub wire: Vec<u8>,
}

pub struct ControlView {
    pub route: Seq<u8>,
    pub wire: Seq<u8>,
}

impl View for ControlFrame {
    type V = ControlView;

    open spec fn view(&self) -> ControlView {
        ControlView {
            route: self.route@,
            wire: self.wire@,
        }
    }
}

impl Framed for ControlFrame {
    open spec fn shape(layout: Layout) -> Shape {
        then(Shape::Field(4), Shape::Field(4))
    }

    open spec fn tree(v: ControlView, layout: Layout) -> Tree {
        both(Tree::Bytes(v.route), Tree::Bytes(v.wire))
    }

    open spec fn plain(v: ControlView, layout: Layout) -> bool {
        true
    }

    proof fn same_tree(a: ControlView, b: ControlView, layout: Layout) {
        assert(a == b);
    }

    open spec fn bounded(v: ControlView, layout: Layout) -> bool {
        true
    }

    proof fn fits(v: ControlView, layout: Layout) {
        broadcast use {conforms_then, size_then, written_as_then};

    }

    fn take_from(buf: &[u8], position: &mut usize, layout: Layout) -> (r: Result<Self, Error>) {
        broadcast use parse_then;

        let route = copy_bytes(take32(buf, position)?);
        let wire = copy_bytes(take32(buf, position)?);
        Ok(ControlFrame { route, wire })
    }

    fn put_into(&self, out: &mut Vec<u8>, layout: Layout) -> (r: Result<(), Error>) {
        broadcast use {render_then, size_then};

        put32(out, self.route.as_slice())?;
        put32(out, self.wire.as_slice())?;
        assert(out@ =~= old(out)@ + render(Self::shape(layout), Self::tree(self@, layout)));
        Ok(())
    }
}

/// An admission that was granted.
#[derive(Debug)]
pub struct AdmissionFrame {
    pub request_id: [u8; 32],
    pub name: String,
    pub pseudonym: [u8; 32],
    pub welcome: Vec<u8>,
}

pub struct AdmissionView {
    pub request_id: [u8; 32],
    pub name: Seq<char>,
    pub pseudonym: [u8; 32],
    pub welcome: Seq<u8>,
}

impl View for AdmissionFrame {
    type V = AdmissionView;

    open spec fn view(&self) -> AdmissionView {
        AdmissionView {
            request_id: self.request_id,
            name: self.name@,
            pseudonym: self.pseudonym,
            welcome: self.welcome@,
        }
    }
}

impl Framed for AdmissionFrame {
    open spec fn shape(layout: Layout) -> Shape {
        then(Shape::Fixed(32), then(Shape::Text(2), then(Shape::Fixed(32), Shape::Field(4))))
    }

    open spec fn tree(v: AdmissionView, layout: Layout) -> Tree {
        both(
            Tree::Bytes(v.request_id@),
            both(Tree::Bytes(encode_utf8(v.name)), both(Tree::Bytes(v.pseudonym@), Tree::Bytes(v.welcome))),
        )
    }

    open spec fn plain(v: AdmissionView, layout: Layout) -> bool {
        true
    }

    proof fn same_tree(a: AdmissionView, b: AdmissionView, layout: Layout) {
        lemma_same_array::<32>(a.request_id, b.request_id);
        lemma_same_text(a.name, b.name);
        lemma_same_array::<32>(a.pseudonym, b.pseudonym);
        assert(a == b);
    }

    open spec fn bounded(v: AdmissionView, layout: Layout) -> bool {
        true
    }

    proof fn fits(v: AdmissionView, layout: Layout) {
        broadcast use {conforms_then, size_then, written_as_then};

        broadcast use vstd::utf8::encode_utf8_valid_utf8;

    }

    fn take_from(buf: &[u8], position: &mut usize, layout: Layout) -> (r: Result<Self, Error>) {
        broadcast use parse_then;

        let request_id = take_array::<32>(buf, position)?;
        let name = take_string16(buf, position)?;
        let pseudonym = take_array::<32>(buf, position)?;
        let welcome = copy_bytes(take32(buf, position)?);
        Ok(AdmissionFrame { request_id, name, pseudonym, welcome })
    }

    fn put_into(&self, out: &mut Vec<u8>, layout: Layout) -> (r: Result<(), Error>) {
        broadcast use {render_then, size_then};

        put_bytes(out, &self.request_id);
        put_text16(out, self.name.as_str())?;
        put_bytes(out, &self.pseudonym);
        put32(out, self.welcome.as_slice())?;
        assert(out@ =~= old(out)@ + render(Self::shape(layout), Self::tree(self@, layout)));
        Ok(())
    }
}

/// The acknowledgement of a commit.
#[derive(Debug)]
pub struct CommitAckFrame {
    pub message_id: [u8; 16],
    pub route: Vec<u8>,
    pub wire: Vec<u8>,
}

pub struct CommitAckView {
    pub message_id: [u8; 16],
    pub route: Seq<u8>,
    pub wire: Seq<u8>,
}

impl View for CommitAckFrame {
    type V = CommitAckView;

    open spec fn view(&self) -> CommitAckView {
        CommitAckView {
            message_id: self.message_id,
            route: self.route@,
            wire: self.wire@,
        }
    }
}

impl Framed for CommitAckFrame {
    open spec fn shape(layout: Layout) -> Shape {
        then(Shape::Fixed(16), then(Shape::Field(4), Shape::Field(4)))
    }

    open spec fn tree(v: CommitAckView, layout: Layout) -> Tree {
        both(Tree::Bytes(v.message_id@), both(Tree::Bytes(v.route), Tree::Bytes(v.wire)))
    }

    open spec fn plain(v: CommitAckView, layout: Layout) -> bool {
        true
    }

    proof fn same_tree(a: CommitAckView, b: CommitAckView, layout: Layout) {
        lemma_same_array::<16>(a.message_id, b.message_id);
        assert(a == b);
    }

    open spec fn bounded(v: CommitAckView, layout: Layout) -> bool {
        true
    }

    proof fn fits(v: CommitAckView, layout: Layout) {
        broadcast use {conforms_then, size_then, written_as_then};

    }

    fn take_from(buf: &[u8], position: &mut usize, layout: Layout) -> (r: Result<Self, Error>) {
        broadcast use parse_then;

        let message_id = take_array::<16>(buf, position)?;
        let route = copy_bytes(take32(buf, position)?);
        let wire = copy_bytes(take32(buf, position)?);
        Ok(CommitAckFrame { message_id, route, wire })
    }

    fn put_into(&self, out: &mut Vec<u8>, layout: Layout) -> (r: Result<(), Error>) {
        broadcast use {render_then, size_then};

        put_bytes(out, &self.message_id);
        put32(out, self.route.as_slice())?;
        put32(out, self.wire.as_slice())?;
        assert(out@ =~= old(out)@ + render(Self::shape(layout), Self::tree(self@, layout)));
        Ok(())
    }
}

/// An acknowledgement that no route is known for.
#[derive(Debug)]
pub struct UnroutedFrame {
    pub original_id: [u8; 16],
    pub sender: [u8; 32],
    pub wire: Vec<u8>,
}

pub struct UnroutedView {
    pub original_id: [u8; 16],
    pub sender: [u8; 32],
    pub wire: Seq<u8>,
}

impl View for UnroutedFrame {
    type V = UnroutedView;

    open spec fn view(&self) -> UnroutedView {
        UnroutedView {
            original_id: self.original_id,
            sender: self.sender,
            wire: self.wire@,
        }
    }
}

impl Framed for UnroutedFrame {
    open spec fn shape(layout: Layout) -> Shape {
        then(Shape::Fixed(16), then(Shape::Fixed(32), Shape::Field(4)))
    }

    open spec fn tree(v: UnroutedView, layout: Layout) -> Tree {
        both(Tree::Bytes(v.original_id@), both(Tree::Bytes(v.sender@), Tree::Bytes(v.wire)))
    }

    open spec fn plain(v: UnroutedView, layout: Layout) -> bool {
        true
    }

    proof fn same_tree(a: UnroutedView, b: UnroutedView, layout: Layout) {
        lemma_same_array::<16>(a.original_id, b.original_id);
        lemma_same_array::<32>(a.sender, b.sender);
        assert(a == b);
    }

    open spec fn bounded(v: UnroutedView, layout: Layout) -> bool {
        true
    }

    proof fn fits(v: UnroutedView, layout: Layout) {
        broadcast use {conforms_then, size_then, written_as_then};

    }

    fn take_from(buf: &[u8], position: &mut usize, layout: Layout) -> (r: Result<Self, Error>) {
        broadcast use parse_then;

        let original_id = take_array::<16>(buf, position)?;
        let sender = take_array::<32>(buf, position)?;
        let wire = copy_bytes(take32(buf, position)?);
        Ok(UnroutedFrame { original_id, sender, wire })
    }

    fn put_into(&self, out: &mut Vec<u8>, layout: Layout) -> (r: Result<(), Error>) {
        broadcast use {render_then, size_then};

        put_bytes(out, &self.original_id);
        put_bytes(out, &self.sender);
        put32(out, self.wire.as_slice())?;
        assert(out@ =~= old(out)@ + render(Self::shape(layout), Self::tree(self@, layout)));
        Ok(())
    }
}

/// A single-use invite, with who redeemed it.
#[derive(Debug)]
pub struct InviteFrame {
    pub invite_id: [u8; 16],
    pub secret: [u8; 32],
    pub expiry: u64,
    pub consumed: Option<[u8; 32]>,
}

pub struct InviteView {
    pub invite_id: [u8; 16],
    pub secret: [u8; 32],
    pub expiry: u64,
    pub consumed: Option<[u8; 32]>,
}

impl View for InviteFrame {
    type V = InviteView;

    open spec fn view(&self) -> InviteView {
        InviteView {
            invite_id: self.invite_id,
            secret: self.secret,
            expiry: self.expiry,
            consumed: self.consumed,
        }
    }
}

impl Framed for InviteFrame {
    open spec fn shape(layout: Layout) -> Shape {
        then(Shape::Fixed(16), then(Shape::Fixed(32), then(Shape::Number(8), maybe(Shape::Fixed(32)))))
    }

    open spec fn tree(v: InviteView, layout: Layout) -> Tree {
        both(
            Tree::Bytes(v.invite_id@),
            both(
                Tree::Bytes(v.secret@),
                both(Tree::Number(v.expiry as nat), maybe_tree(id_view(v.consumed))),
            ),
        )
    }

    open spec fn plain(v: InviteView, layout: Layout) -> bool {
        true
    }

    proof fn same_tree(a: InviteView, b: InviteView, layout: Layout) {
        lemma_same_array::<16>(a.invite_id, b.invite_id);
        lemma_same_array::<32>(a.secret, b.secret);
        if a.consumed is Some {
            lemma_same_array::<32>(a.consumed->0, b.consumed->0);
        }
        assert(a == b);
    }

    open spec fn bounded(v: InviteView, layout: Layout) -> bool {
        true
    }

    proof fn fits(v: InviteView, layout: Layout) {
        broadcast use {conforms_then, size_then, written_as_then};

        lemma_be_limits();
        reveal_with_fuel(conforms, 3);
        reveal_with_fuel(written_as, 3);
        reveal_with_fuel(size_error, 3);
    }

    fn take_from(buf: &[u8], position: &mut usize, layout: Layout) -> (r: Result<Self, Error>) {
        broadcast use parse_then;

        let invite_id = take_array::<16>(buf, position)?;
        let secret = take_array::<32>(buf, position)?;
        let expiry: u64 = take_u64(buf, position)?;
        let consumed = take_opt_id(buf, position)?;
        Ok(InviteFrame { invite_id, secret, expiry, consumed })
    }

    fn put_into(&self, out: &mut Vec<u8>, layout: Layout) -> (r: Result<(), Error>) {
        broadcast use {render_then, size_then};

        put_bytes(out, &self.invite_id);
        put_bytes(out, &self.secret);
        put_u64(out, self.expiry);
        put_opt_id(out, &self.consumed);
        assert(out@ =~= old(out)@ + render(Self::shape(layout), Self::tree(self@, layout)));
        Ok(())
    }
}

/// A channel's directory and what it has sent.
#[derive(Debug)]
pub struct OutboxFrame {
    pub own_name: Option<String>,
    pub directory: Vec<MemberFrame>,
    pub messages: Vec<MessageFrame>,
    pub membership: Option<MembershipFrame>,
}

pub struct OutboxView {
    pub own_name: Option<Seq<char>>,
    pub directory: Seq<MemberView>,
    pub messages: Seq<MessageView>,
    pub membership: Option<MembershipView>,
}

impl View for OutboxFrame {
    type V = OutboxView;

    open spec fn view(&self) -> OutboxView {
        OutboxView {
            own_name: maybe_view(self.own_name),
            directory: views(self.directory@),
            messages: views(self.messages@),
            membership: maybe_view(self.membership),
        }
    }
}

impl Framed for OutboxFrame {
    open spec fn shape(layout: Layout) -> Shape {
        then(
            maybe(Shape::Text(2)),
            then(
                Shape::Many(1024, Box::new(MemberFrame::shape(layout))),
                then(
                    Shape::Many(64, Box::new(MessageFrame::shape(layout))),
                    maybe(MembershipFrame::shape(layout)),
                ),
            ),
        )
    }

    open spec fn tree(v: OutboxView, layout: Layout) -> Tree {
        both(
            maybe_tree(text_bytes(v.own_name)),
            both(
                Tree::Many(trees::<MemberFrame>(v.directory, layout)),
                both(
                    Tree::Many(trees::<MessageFrame>(v.messages, layout)),
                    maybe_framed::<MembershipFrame>(v.membership, layout),
                ),
            ),
        )
    }

    open spec fn plain(v: OutboxView, layout: Layout) -> bool {
        &&& all_plain::<MemberFrame>(v.directory, layout)
        &&& all_plain::<MessageFrame>(v.messages, layout)
        &&& (v.membership is Some ==> MembershipFrame::plain(v.membership->0, layout))
    }

    proof fn same_tree(a: OutboxView, b: OutboxView, layout: Layout) {
        if a.own_name is Some {
            lemma_same_text(a.own_name->0, b.own_name->0);
        }
        lemma_same_trees::<MemberFrame>(a.directory, b.directory, layout);
        lemma_same_trees::<MessageFrame>(a.messages, b.messages, layout);
        if a.membership is Some {
            MembershipFrame::same_tree(a.membership->0, b.membership->0, layout);
        }
        assert(a == b);
    }

    open spec fn bounded(v: OutboxView, layout: Layout) -> bool {
        &&& all_bounded::<MemberFrame>(v.directory, 1024 as nat, layout)
        &&& all_bounded::<MessageFrame>(v.messages, 64 as nat, layout)
        &&& (v.membership is Some ==> MembershipFrame::bounded(v.membership->0, layout))
    }

    proof fn fits(v: OutboxView, layout: Layout) {
        broadcast use {conforms_then, size_then, written_as_then};

        broadcast use vstd::utf8::encode_utf8_valid_utf8;

        reveal_with_fuel(conforms, 3);
        reveal_with_fuel(written_as, 3);
        reveal_with_fuel(size_error, 3);
        lemma_many_fits::<MemberFrame>(v.directory, 1024 as nat, layout);
        lemma_many_fits::<MessageFrame>(v.messages, 64 as nat, layout);
        if v.membership is Some {
            MembershipFrame::fits(v.membership->0, layout);
        }
    }

    fn take_from(buf: &[u8], position: &mut usize, layout: Layout) -> (r: Result<Self, Error>) {
        broadcast use parse_then;

        let own_name = take_opt_text(buf, position)?;
        let directory = take_many::<MemberFrame>(buf, position, 1024, layout)?;
        let messages = take_many::<MessageFrame>(buf, position, 64, layout)?;
        let membership = take_opt::<MembershipFrame>(buf, position, layout)?;
        Ok(OutboxFrame { own_name, directory, messages, membership })
    }

    fn put_into(&self, out: &mut Vec<u8>, layout: Layout) -> (r: Result<(), Error>) {
        broadcast use {render_then, size_then};

        put_opt_text(out, &self.own_name)?;
        put_many(&self.directory, out, Ghost(1024 as nat), layout)?;
        put_many(&self.messages, out, Ghost(64 as nat), layout)?;
        put_opt(&self.membership, out, layout)?;
        assert(out@ =~= old(out)@ + render(Self::shape(layout), Self::tree(self@, layout)));
        Ok(())
    }
}

/// A channel's caches and ledgers.
#[derive(Debug)]
pub struct LedgerFrame {
    pub control: Vec<ControlFrame>,
    pub admissions: Vec<AdmissionFrame>,
    pub removals: Vec<NameFrame>,
    pub commit_acks: Vec<CommitAckFrame>,
    pub unrouted: Vec<UnroutedFrame>,
    pub invites: Vec<InviteFrame>,
}

pub struct LedgerView {
    pub control: Seq<ControlView>,
    pub admissions: Seq<AdmissionView>,
    pub removals: Seq<NameView>,
    pub commit_acks: Seq<CommitAckView>,
    pub unrouted: Seq<UnroutedView>,
    pub invites: Seq<InviteView>,
}

impl View for LedgerFrame {
    type V = LedgerView;

    open spec fn view(&self) -> LedgerView {
        LedgerView {
            control: views(self.control@),
            admissions: views(self.admissions@),
            removals: views(self.removals@),
            commit_acks: views(self.commit_acks@),
            unrouted: views(self.unrouted@),
            invites: views(self.invites@),
        }
    }
}

impl Framed for LedgerFrame {
    open spec fn shape(layout: Layout) -> Shape {
        then(
            Shape::Many(64, Box::new(ControlFrame::shape(layout))),
            then(
                Shape::Many(64, Box::new(AdmissionFrame::shape(layout))),
                then(
                    Shape::Many(1024, Box::new(NameFrame::shape(layout))),
                    then(
                        Shape::Many(64, Box::new(CommitAckFrame::shape(layout))),
                        then(
                            Shape::Many(layout.channel_ack_limit as nat, Box::new(UnroutedFrame::shape(layout))),
                            since(layout.version >= 10, Shape::Many(64, Box::new(InviteFrame::shape(layout)))),
                        ),
                    ),
                ),
            ),
        )
    }

    open spec fn tree(v: LedgerView, layout: Layout) -> Tree {
        both(
            Tree::Many(trees::<ControlFrame>(v.control, layout)),
            both(
                Tree::Many(trees::<AdmissionFrame>(v.admissions, layout)),
                both(
                    Tree::Many(trees::<NameFrame>(v.removals, layout)),
                    both(
                        Tree::Many(trees::<CommitAckFrame>(v.commit_acks, layout)),
                        both(
                            Tree::Many(trees::<UnroutedFrame>(v.unrouted, layout)),
                            where_present(layout.version >= 10, Tree::Many(trees::<InviteFrame>(v.invites, layout))),
                        ),
                    ),
                ),
            ),
        )
    }

    open spec fn plain(v: LedgerView, layout: Layout) -> bool {
        &&& all_plain::<ControlFrame>(v.control, layout)
        &&& all_plain::<AdmissionFrame>(v.admissions, layout)
        &&& all_plain::<NameFrame>(v.removals, layout)
        &&& all_plain::<CommitAckFrame>(v.commit_acks, layout)
        &&& all_plain::<UnroutedFrame>(v.unrouted, layout)
        &&& (layout.version >= 10 || v.invites.len() == 0) && all_plain::<InviteFrame>(v.invites, layout)
    }

    proof fn same_tree(a: LedgerView, b: LedgerView, layout: Layout) {
        reveal(since);
        reveal(where_present);
        lemma_same_trees::<ControlFrame>(a.control, b.control, layout);
        lemma_same_trees::<AdmissionFrame>(a.admissions, b.admissions, layout);
        lemma_same_trees::<NameFrame>(a.removals, b.removals, layout);
        lemma_same_trees::<CommitAckFrame>(a.commit_acks, b.commit_acks, layout);
        lemma_same_trees::<UnroutedFrame>(a.unrouted, b.unrouted, layout);
        if layout.version >= 10 {
            lemma_same_trees::<InviteFrame>(a.invites, b.invites, layout);
        }
        assert(a.invites =~= b.invites);
        assert(a == b);
    }

    open spec fn bounded(v: LedgerView, layout: Layout) -> bool {
        &&& all_bounded::<ControlFrame>(v.control, 64 as nat, layout)
        &&& all_bounded::<AdmissionFrame>(v.admissions, 64 as nat, layout)
        &&& all_bounded::<NameFrame>(v.removals, 1024 as nat, layout)
        &&& all_bounded::<CommitAckFrame>(v.commit_acks, 64 as nat, layout)
        &&& all_bounded::<UnroutedFrame>(v.unrouted, layout.channel_ack_limit as nat, layout)
        &&& all_bounded::<InviteFrame>(v.invites, 64 as nat, layout)
    }

    proof fn fits(v: LedgerView, layout: Layout) {
        broadcast use {conforms_then, size_then, written_as_then};

        reveal(since);
        reveal(where_present);
        lemma_many_fits::<ControlFrame>(v.control, 64 as nat, layout);
        lemma_many_fits::<AdmissionFrame>(v.admissions, 64 as nat, layout);
        lemma_many_fits::<NameFrame>(v.removals, 1024 as nat, layout);
        lemma_many_fits::<CommitAckFrame>(v.commit_acks, 64 as nat, layout);
        lemma_many_fits::<UnroutedFrame>(v.unrouted, layout.channel_ack_limit as nat, layout);
        if layout.version >= 10 {
            lemma_many_fits::<InviteFrame>(v.invites, 64 as nat, layout);
        }
    }

    fn take_from(buf: &[u8], position: &mut usize, layout: Layout) -> (r: Result<Self, Error>) {
        broadcast use parse_then;

        let control = take_many::<ControlFrame>(buf, position, 64, layout)?;
        let admissions = take_many::<AdmissionFrame>(buf, position, 64, layout)?;
        let removals = take_many::<NameFrame>(buf, position, 1024, layout)?;
        let commit_acks = take_many::<CommitAckFrame>(buf, position, 64, layout)?;
        let unrouted = take_many::<UnroutedFrame>(buf, position, layout.channel_ack_limit, layout)?;
        let invites = take_many_if::<InviteFrame>(layout.version >= 10, buf, position, 64, layout)?;
        Ok(LedgerFrame { control, admissions, removals, commit_acks, unrouted, invites })
    }

    fn put_into(&self, out: &mut Vec<u8>, layout: Layout) -> (r: Result<(), Error>) {
        broadcast use {render_then, size_then};

        put_many(&self.control, out, Ghost(64 as nat), layout)?;
        put_many(&self.admissions, out, Ghost(64 as nat), layout)?;
        put_many(&self.removals, out, Ghost(1024 as nat), layout)?;
        put_many(&self.commit_acks, out, Ghost(64 as nat), layout)?;
        put_many(&self.unrouted, out, Ghost(layout.channel_ack_limit as nat), layout)?;
        put_many_if(layout.version >= 10, &self.invites, out, Ghost(64 as nat), layout)?;
        assert(out@ =~= old(out)@ + render(Self::shape(layout), Self::tree(self@, layout)));
        Ok(())
    }
}

/// What follows a channel's role.
#[derive(Debug)]
pub struct ChannelBody {
    pub outbox: OutboxFrame,
    pub ledger: LedgerFrame,
}

pub struct ChannelBodyView {
    pub outbox: OutboxView,
    pub ledger: LedgerView,
}

impl View for ChannelBody {
    type V = ChannelBodyView;

    open spec fn view(&self) -> ChannelBodyView {
        ChannelBodyView {
            outbox: self.outbox@,
            ledger: self.ledger@,
        }
    }
}

impl Framed for ChannelBody {
    open spec fn shape(layout: Layout) -> Shape {
        then(OutboxFrame::shape(layout), LedgerFrame::shape(layout))
    }

    open spec fn tree(v: ChannelBodyView, layout: Layout) -> Tree {
        both(OutboxFrame::tree(v.outbox, layout), LedgerFrame::tree(v.ledger, layout))
    }

    open spec fn plain(v: ChannelBodyView, layout: Layout) -> bool {
        &&& OutboxFrame::plain(v.outbox, layout)
        &&& LedgerFrame::plain(v.ledger, layout)
    }

    proof fn same_tree(a: ChannelBodyView, b: ChannelBodyView, layout: Layout) {
        OutboxFrame::same_tree(a.outbox, b.outbox, layout);
        LedgerFrame::same_tree(a.ledger, b.ledger, layout);
        assert(a == b);
    }

    open spec fn bounded(v: ChannelBodyView, layout: Layout) -> bool {
        &&& OutboxFrame::bounded(v.outbox, layout)
        &&& LedgerFrame::bounded(v.ledger, layout)
    }

    proof fn fits(v: ChannelBodyView, layout: Layout) {
        broadcast use {conforms_then, size_then, written_as_then};

        OutboxFrame::fits(v.outbox, layout);
        LedgerFrame::fits(v.ledger, layout);
    }

    fn take_from(buf: &[u8], position: &mut usize, layout: Layout) -> (r: Result<Self, Error>) {
        broadcast use parse_then;

        let outbox = OutboxFrame::take_from(buf, position, layout)?;
        let ledger = LedgerFrame::take_from(buf, position, layout)?;
        Ok(ChannelBody { outbox, ledger })
    }

    fn put_into(&self, out: &mut Vec<u8>, layout: Layout) -> (r: Result<(), Error>) {
        broadcast use {render_then, size_then};

        self.outbox.put_into(out, layout)?;
        self.ledger.put_into(out, layout)?;
        assert(out@ =~= old(out)@ + render(Self::shape(layout), Self::tree(self@, layout)));
        Ok(())
    }
}

/// Presence policy and forwarding grants.
#[derive(Debug)]
pub struct PolicyFrame {
    pub peers: Vec<PeerFrame>,
    pub channels: Vec<NameFrame>,
    pub grants: Vec<SealedFrame>,
}

pub struct PolicyView {
    pub peers: Seq<PeerView>,
    pub channels: Seq<NameView>,
    pub grants: Seq<SealedView>,
}

impl View for PolicyFrame {
    type V = PolicyView;

    open spec fn view(&self) -> PolicyView {
        PolicyView {
            peers: views(self.peers@),
            channels: views(self.channels@),
            grants: views(self.grants@),
        }
    }
}

impl Framed for PolicyFrame {
    open spec fn shape(layout: Layout) -> Shape {
        then(
            since(layout.version >= 7, Shape::Many(8192, Box::new(PeerFrame::shape(layout)))),
            then(
                since(layout.version >= 7, Shape::Many(layout.channel_max as nat, Box::new(NameFrame::shape(layout)))),
                since(layout.version >= 9, Shape::Many(layout.forward_grants_max as nat, Box::new(SealedFrame::shape(layout)))),
            ),
        )
    }

    open spec fn tree(v: PolicyView, layout: Layout) -> Tree {
        both(
            where_present(layout.version >= 7, Tree::Many(trees::<PeerFrame>(v.peers, layout))),
            both(
                where_present(layout.version >= 7, Tree::Many(trees::<NameFrame>(v.channels, layout))),
                where_present(layout.version >= 9, Tree::Many(trees::<SealedFrame>(v.grants, layout))),
            ),
        )
    }

    open spec fn plain(v: PolicyView, layout: Layout) -> bool {
        &&& (layout.version >= 7 || v.peers.len() == 0) && all_plain::<PeerFrame>(v.peers, layout)
        &&& (layout.version >= 7 || v.channels.len() == 0) && all_plain::<NameFrame>(v.channels, layout)
        &&& (layout.version >= 9 || v.grants.len() == 0) && all_plain::<SealedFrame>(v.grants, layout)
    }

    proof fn same_tree(a: PolicyView, b: PolicyView, layout: Layout) {
        reveal(since);
        reveal(where_present);
        if layout.version >= 7 {
            lemma_same_trees::<PeerFrame>(a.peers, b.peers, layout);
        }
        assert(a.peers =~= b.peers);
        if layout.version >= 7 {
            lemma_same_trees::<NameFrame>(a.channels, b.channels, layout);
        }
        assert(a.channels =~= b.channels);
        if layout.version >= 9 {
            lemma_same_trees::<SealedFrame>(a.grants, b.grants, layout);
        }
        assert(a.grants =~= b.grants);
        assert(a == b);
    }

    open spec fn bounded(v: PolicyView, layout: Layout) -> bool {
        &&& all_bounded::<PeerFrame>(v.peers, 8192 as nat, layout)
        &&& all_bounded::<NameFrame>(v.channels, layout.channel_max as nat, layout)
        &&& all_bounded::<SealedFrame>(v.grants, layout.forward_grants_max as nat, layout)
    }

    proof fn fits(v: PolicyView, layout: Layout) {
        broadcast use {conforms_then, size_then, written_as_then};

        reveal(since);
        reveal(where_present);
        if layout.version >= 7 {
            lemma_many_fits::<PeerFrame>(v.peers, 8192 as nat, layout);
        }
        if layout.version >= 7 {
            lemma_many_fits::<NameFrame>(v.channels, layout.channel_max as nat, layout);
        }
        if layout.version >= 9 {
            lemma_many_fits::<SealedFrame>(v.grants, layout.forward_grants_max as nat, layout);
        }
    }

    fn take_from(buf: &[u8], position: &mut usize, layout: Layout) -> (r: Result<Self, Error>) {
        broadcast use parse_then;

        let peers = take_many_if::<PeerFrame>(layout.version >= 7, buf, position, 8192, layout)?;
        let channels = take_many_if::<NameFrame>(layout.version >= 7, buf, position, layout.channel_max, layout)?;
        let grants = take_many_if::<SealedFrame>(layout.version >= 9, buf, position, layout.forward_grants_max, layout)?;
        Ok(PolicyFrame { peers, channels, grants })
    }

    fn put_into(&self, out: &mut Vec<u8>, layout: Layout) -> (r: Result<(), Error>) {
        broadcast use {render_then, size_then};

        put_many_if(layout.version >= 7, &self.peers, out, Ghost(8192 as nat), layout)?;
        put_many_if(layout.version >= 7, &self.channels, out, Ghost(layout.channel_max as nat), layout)?;
        put_many_if(layout.version >= 9, &self.grants, out, Ghost(layout.forward_grants_max as nat), layout)?;
        assert(out@ =~= old(out)@ + render(Self::shape(layout), Self::tree(self@, layout)));
        Ok(())
    }
}

/// A join that was prepared and not yet answered.
#[derive(Debug)]
pub struct PreparedFrame {
    pub id: u64,
    pub display: String,
    pub mls: Vec<u8>,
    pub route: Vec<u8>,
}

pub struct PreparedView {
    pub id: u64,
    pub display: Seq<char>,
    pub mls: Seq<u8>,
    pub route: Seq<u8>,
}

impl View for PreparedFrame {
    type V = PreparedView;

    open spec fn view(&self) -> PreparedView {
        PreparedView {
            id: self.id,
            display: self.display@,
            mls: self.mls@,
            route: self.route@,
        }
    }
}

impl Framed for PreparedFrame {
    open spec fn shape(layout: Layout) -> Shape {
        then(Shape::Number(8), then(Shape::Text(2), then(Shape::Field(4), Shape::Field(4))))
    }

    open spec fn tree(v: PreparedView, layout: Layout) -> Tree {
        both(
            Tree::Number(v.id as nat),
            both(Tree::Bytes(encode_utf8(v.display)), both(Tree::Bytes(v.mls), Tree::Bytes(v.route))),
        )
    }

    open spec fn plain(v: PreparedView, layout: Layout) -> bool {
        true
    }

    proof fn same_tree(a: PreparedView, b: PreparedView, layout: Layout) {
        lemma_same_text(a.display, b.display);
        assert(a == b);
    }

    open spec fn bounded(v: PreparedView, layout: Layout) -> bool {
        true
    }

    proof fn fits(v: PreparedView, layout: Layout) {
        broadcast use {conforms_then, size_then, written_as_then};

        lemma_be_limits();
        broadcast use vstd::utf8::encode_utf8_valid_utf8;

    }

    fn take_from(buf: &[u8], position: &mut usize, layout: Layout) -> (r: Result<Self, Error>) {
        broadcast use parse_then;

        let id: u64 = take_u64(buf, position)?;
        let display = take_string16(buf, position)?;
        let mls = copy_bytes(take32(buf, position)?);
        let route = copy_bytes(take32(buf, position)?);
        Ok(PreparedFrame { id, display, mls, route })
    }

    fn put_into(&self, out: &mut Vec<u8>, layout: Layout) -> (r: Result<(), Error>) {
        broadcast use {render_then, size_then};

        put_u64(out, self.id);
        put_text16(out, self.display.as_str())?;
        put32(out, self.mls.as_slice())?;
        put32(out, self.route.as_slice())?;
        assert(out@ =~= old(out)@ + render(Self::shape(layout), Self::tree(self@, layout)));
        Ok(())
    }
}

/// An application message that waits for its reader.
#[derive(Debug)]
pub struct InboxEntryFrame {
    pub sequence: u64,
    pub peer: Vec<u8>,
    pub message_id: [u8; 16],
    pub received_at_unix: u64,
    pub body: Vec<u8>,
}

pub struct InboxEntryView {
    pub sequence: u64,
    pub peer: Seq<u8>,
    pub message_id: [u8; 16],
    pub received_at_unix: u64,
    pub body: Seq<u8>,
}

impl View for InboxEntryFrame {
    type V = InboxEntryView;

    open spec fn view(&self) -> InboxEntryView {
        InboxEntryView {
            sequence: self.sequence,
            peer: self.peer@,
            message_id: self.message_id,
            received_at_unix: self.received_at_unix,
            body: self.body@,
        }
    }
}

impl Framed for InboxEntryFrame {
    open spec fn shape(layout: Layout) -> Shape {
        then(
            Shape::Number(8),
            then(Shape::Field(2), then(Shape::Fixed(16), then(Shape::Number(8), Shape::Field(4)))),
        )
    }

    open spec fn tree(v: InboxEntryView, layout: Layout) -> Tree {
        both(
            Tree::Number(v.sequence as nat),
            both(
                Tree::Bytes(v.peer),
                both(
                    Tree::Bytes(v.message_id@),
                    both(Tree::Number(v.received_at_unix as nat), Tree::Bytes(v.body)),
                ),
            ),
        )
    }

    open spec fn plain(v: InboxEntryView, layout: Layout) -> bool {
        true
    }

    proof fn same_tree(a: InboxEntryView, b: InboxEntryView, layout: Layout) {
        lemma_same_array::<16>(a.message_id, b.message_id);
        assert(a == b);
    }

    open spec fn bounded(v: InboxEntryView, layout: Layout) -> bool {
        true
    }

    proof fn fits(v: InboxEntryView, layout: Layout) {
        broadcast use {conforms_then, size_then, written_as_then};

        lemma_be_limits();
    }

    fn take_from(buf: &[u8], position: &mut usize, layout: Layout) -> (r: Result<Self, Error>) {
        broadcast use parse_then;

        let sequence: u64 = take_u64(buf, position)?;
        let peer = copy_bytes(take16(buf, position)?);
        let message_id = take_array::<16>(buf, position)?;
        let received_at_unix: u64 = take_u64(buf, position)?;
        let body = copy_bytes(take32(buf, position)?);
        Ok(InboxEntryFrame { sequence, peer, message_id, received_at_unix, body })
    }

    fn put_into(&self, out: &mut Vec<u8>, layout: Layout) -> (r: Result<(), Error>) {
        broadcast use {render_then, size_then};

        put_u64(out, self.sequence);
        put16(out, self.peer.as_slice())?;
        put_bytes(out, &self.message_id);
        put_u64(out, self.received_at_unix);
        put32(out, self.body.as_slice())?;
        assert(out@ =~= old(out)@ + render(Self::shape(layout), Self::tree(self@, layout)));
        Ok(())
    }
}

/// The application inbox, before it is sealed.
#[derive(Debug)]
pub struct InboxFrame {
    pub next_sequence: u64,
    pub entries: Vec<InboxEntryFrame>,
}

pub struct InboxFrameView {
    pub next_sequence: u64,
    pub entries: Seq<InboxEntryView>,
}

impl View for InboxFrame {
    type V = InboxFrameView;

    open spec fn view(&self) -> InboxFrameView {
        InboxFrameView {
            next_sequence: self.next_sequence,
            entries: views(self.entries@),
        }
    }
}

impl Framed for InboxFrame {
    open spec fn shape(layout: Layout) -> Shape {
        then(
            Shape::Number(8),
            Shape::Many(layout.application_inbox_limit as nat, Box::new(InboxEntryFrame::shape(layout))),
        )
    }

    open spec fn tree(v: InboxFrameView, layout: Layout) -> Tree {
        both(Tree::Number(v.next_sequence as nat), Tree::Many(trees::<InboxEntryFrame>(v.entries, layout)))
    }

    open spec fn plain(v: InboxFrameView, layout: Layout) -> bool {
        all_plain::<InboxEntryFrame>(v.entries, layout)
    }

    proof fn same_tree(a: InboxFrameView, b: InboxFrameView, layout: Layout) {
        lemma_same_trees::<InboxEntryFrame>(a.entries, b.entries, layout);
        assert(a == b);
    }

    open spec fn bounded(v: InboxFrameView, layout: Layout) -> bool {
        all_bounded::<InboxEntryFrame>(v.entries, layout.application_inbox_limit as nat, layout)
    }

    proof fn fits(v: InboxFrameView, layout: Layout) {
        broadcast use {conforms_then, size_then, written_as_then};

        lemma_be_limits();
        lemma_many_fits::<InboxEntryFrame>(v.entries, layout.application_inbox_limit as nat, layout);
    }

    fn take_from(buf: &[u8], position: &mut usize, layout: Layout) -> (r: Result<Self, Error>) {
        broadcast use parse_then;

        let next_sequence: u64 = take_u64(buf, position)?;
        let entries = take_many::<InboxEntryFrame>(buf, position, layout.application_inbox_limit, layout)?;
        Ok(InboxFrame { next_sequence, entries })
    }

    fn put_into(&self, out: &mut Vec<u8>, layout: Layout) -> (r: Result<(), Error>) {
        broadcast use {render_then, size_then};

        put_u64(out, self.next_sequence);
        put_many(&self.entries, out, Ghost(layout.application_inbox_limit as nat), layout)?;
        assert(out@ =~= old(out)@ + render(Self::shape(layout), Self::tree(self@, layout)));
        Ok(())
    }
}

/// A short identifier.
#[derive(Debug)]
pub struct ShortIdFrame {
    pub id: [u8; 16],
}

pub struct ShortIdView {
    pub id: [u8; 16],
}

impl View for ShortIdFrame {
    type V = ShortIdView;

    open spec fn view(&self) -> ShortIdView {
        ShortIdView {
            id: self.id,
        }
    }
}

impl Framed for ShortIdFrame {
    open spec fn shape(layout: Layout) -> Shape {
        Shape::Fixed(16)
    }

    open spec fn tree(v: ShortIdView, layout: Layout) -> Tree {
        Tree::Bytes(v.id@)
    }

    open spec fn plain(v: ShortIdView, layout: Layout) -> bool {
        true
    }

    proof fn same_tree(a: ShortIdView, b: ShortIdView, layout: Layout) {
        lemma_same_array::<16>(a.id, b.id);
        assert(a == b);
    }

    open spec fn bounded(v: ShortIdView, layout: Layout) -> bool {
        true
    }

    proof fn fits(v: ShortIdView, layout: Layout) {
    }

    fn take_from(buf: &[u8], position: &mut usize, layout: Layout) -> (r: Result<Self, Error>) {
        let id = take_array::<16>(buf, position)?;
        Ok(ShortIdFrame { id })
    }

    fn put_into(&self, out: &mut Vec<u8>, layout: Layout) -> (r: Result<(), Error>) {
        put_bytes(out, &self.id);
        assert(out@ =~= old(out)@ + render(Self::shape(layout), Self::tree(self@, layout)));
        Ok(())
    }
}

/// Which components the central endpoint owns, and under which policy.
#[derive(Debug)]
pub struct CentralOwnership {
    pub primary: Vec<ShortIdFrame>,
    pub scoped: Vec<ShortIdFrame>,
    pub policy_hash: [u8; 32],
}

pub struct CentralView {
    pub primary: Seq<ShortIdView>,
    pub scoped: Seq<ShortIdView>,
    pub policy_hash: [u8; 32],
}

impl View for CentralOwnership {
    type V = CentralView;

    open spec fn view(&self) -> CentralView {
        CentralView {
            primary: views(self.primary@),
            scoped: views(self.scoped@),
            policy_hash: self.policy_hash,
        }
    }
}

impl Framed for CentralOwnership {
    open spec fn shape(layout: Layout) -> Shape {
        then(
            Shape::Many(64, Box::new(ShortIdFrame::shape(layout))),
            then(Shape::Many(64, Box::new(ShortIdFrame::shape(layout))), Shape::Fixed(32)),
        )
    }

    open spec fn tree(v: CentralView, layout: Layout) -> Tree {
        both(
            Tree::Many(trees::<ShortIdFrame>(v.primary, layout)),
            both(Tree::Many(trees::<ShortIdFrame>(v.scoped, layout)), Tree::Bytes(v.policy_hash@)),
        )
    }

    open spec fn plain(v: CentralView, layout: Layout) -> bool {
        &&& all_plain::<ShortIdFrame>(v.primary, layout)
        &&& all_plain::<ShortIdFrame>(v.scoped, layout)
    }

    proof fn same_tree(a: CentralView, b: CentralView, layout: Layout) {
        lemma_same_trees::<ShortIdFrame>(a.primary, b.primary, layout);
        lemma_same_trees::<ShortIdFrame>(a.scoped, b.scoped, layout);
        lemma_same_array::<32>(a.policy_hash, b.policy_hash);
        assert(a == b);
    }

    open spec fn bounded(v: CentralView, layout: Layout) -> bool {
        &&& all_bounded::<ShortIdFrame>(v.primary, 64 as nat, layout)
        &&& all_bounded::<ShortIdFrame>(v.scoped, 64 as nat, layout)
    }

    proof fn fits(v: CentralView, layout: Layout) {
        broadcast use {conforms_then, size_then, written_as_then};

        lemma_many_fits::<ShortIdFrame>(v.primary, 64 as nat, layout);
        lemma_many_fits::<ShortIdFrame>(v.scoped, 64 as nat, layout);
    }

    fn take_from(buf: &[u8], position: &mut usize, layout: Layout) -> (r: Result<Self, Error>) {
        broadcast use parse_then;

        let primary = take_many::<ShortIdFrame>(buf, position, 64, layout)?;
        let scoped = take_many::<ShortIdFrame>(buf, position, 64, layout)?;
        let policy_hash = take_array::<32>(buf, position)?;
        Ok(CentralOwnership { primary, scoped, policy_hash })
    }

    fn put_into(&self, out: &mut Vec<u8>, layout: Layout) -> (r: Result<(), Error>) {
        broadcast use {render_then, size_then};

        put_many(&self.primary, out, Ghost(64 as nat), layout)?;
        put_many(&self.scoped, out, Ghost(64 as nat), layout)?;
        put_bytes(out, &self.policy_hash);
        assert(out@ =~= old(out)@ + render(Self::shape(layout), Self::tree(self@, layout)));
        Ok(())
    }
}

/// The private material of one of a route's two queues.
#[derive(Debug)]
pub struct LaneFrame {
    pub push: [u8; 32],
    pub sub: [u8; 32],
    pub admin: [u8; 32],
    pub max_queue_cells: u16,
    pub max_queue_bytes: u64,
    pub create_path: String,
    pub lease_create: Cell,
}

pub struct LaneView {
    pub push: [u8; 32],
    pub sub: [u8; 32],
    pub admin: [u8; 32],
    pub max_queue_cells: u16,
    pub max_queue_bytes: u64,
    pub create_path: Seq<char>,
    pub lease_create: CellView,
}

impl View for LaneFrame {
    type V = LaneView;

    open spec fn view(&self) -> LaneView {
        LaneView {
            push: self.push,
            sub: self.sub,
            admin: self.admin,
            max_queue_cells: self.max_queue_cells,
            max_queue_bytes: self.max_queue_bytes,
            create_path: self.create_path@,
            lease_create: self.lease_create@,
        }
    }
}

impl Framed for LaneFrame {
    open spec fn shape(layout: Layout) -> Shape {
        then(
            Shape::Fixed(32),
            then(
                Shape::Fixed(32),
                then(
                    Shape::Fixed(32),
                    then(Shape::Number(2), then(Shape::Number(8), then(Shape::Text(2), Cell::shape(layout)))),
                ),
            ),
        )
    }

    open spec fn tree(v: LaneView, layout: Layout) -> Tree {
        both(
            Tree::Bytes(v.push@),
            both(
                Tree::Bytes(v.sub@),
                both(
                    Tree::Bytes(v.admin@),
                    both(
                        Tree::Number(v.max_queue_cells as nat),
                        both(
                            Tree::Number(v.max_queue_bytes as nat),
                            both(Tree::Bytes(encode_utf8(v.create_path)), Cell::tree(v.lease_create, layout)),
                        ),
                    ),
                ),
            ),
        )
    }

    open spec fn plain(v: LaneView, layout: Layout) -> bool {
        Cell::plain(v.lease_create, layout)
    }

    proof fn same_tree(a: LaneView, b: LaneView, layout: Layout) {
        lemma_same_array::<32>(a.push, b.push);
        lemma_same_array::<32>(a.sub, b.sub);
        lemma_same_array::<32>(a.admin, b.admin);
        lemma_same_text(a.create_path, b.create_path);
        Cell::same_tree(a.lease_create, b.lease_create, layout);
        assert(a == b);
    }

    open spec fn bounded(v: LaneView, layout: Layout) -> bool {
        Cell::bounded(v.lease_create, layout)
    }

    proof fn fits(v: LaneView, layout: Layout) {
        broadcast use {conforms_then, size_then, written_as_then};

        lemma_be_limits();
        broadcast use vstd::utf8::encode_utf8_valid_utf8;

        Cell::fits(v.lease_create, layout);
    }

    fn take_from(buf: &[u8], position: &mut usize, layout: Layout) -> (r: Result<Self, Error>) {
        broadcast use parse_then;

        let push = take_array::<32>(buf, position)?;
        let sub = take_array::<32>(buf, position)?;
        let admin = take_array::<32>(buf, position)?;
        let max_queue_cells: u16 = take_u16(buf, position)?;
        let max_queue_bytes: u64 = take_u64(buf, position)?;
        let create_path = take_string16(buf, position)?;
        let lease_create = Cell::take_from(buf, position, layout)?;
        Ok(LaneFrame { push, sub, admin, max_queue_cells, max_queue_bytes, create_path, lease_create })
    }

    #[verifier::rlimit(50)]
    fn put_into(&self, out: &mut Vec<u8>, layout: Layout) -> (r: Result<(), Error>) {
        broadcast use {render_then, size_then};

        put_bytes(out, &self.push);
        put_bytes(out, &self.sub);
        put_bytes(out, &self.admin);
        put_u16(out, self.max_queue_cells);
        put_u64(out, self.max_queue_bytes);
        put_text16(out, self.create_path.as_str())?;
        self.lease_create.put_into(out, layout)?;
        assert(out@ =~= old(out)@ + render(Self::shape(layout), Self::tree(self@, layout)));
        Ok(())
    }
}

/// A channel route with its private material.
#[derive(Debug)]
pub struct OwnedRouteFrame {
    pub public: Vec<u8>,
    pub data: LaneFrame,
    pub control: LaneFrame,
}

pub struct OwnedRouteView {
    pub public: Seq<u8>,
    pub data: LaneView,
    pub control: LaneView,
}

impl View for OwnedRouteFrame {
    type V = OwnedRouteView;

    open spec fn view(&self) -> OwnedRouteView {
        OwnedRouteView {
            public: self.public@,
            data: self.data@,
            control: self.control@,
        }
    }
}

impl Framed for OwnedRouteFrame {
    open spec fn shape(layout: Layout) -> Shape {
        then(Shape::Field(4), then(LaneFrame::shape(layout), LaneFrame::shape(layout)))
    }

    open spec fn tree(v: OwnedRouteView, layout: Layout) -> Tree {
        both(
            Tree::Bytes(v.public),
            both(LaneFrame::tree(v.data, layout), LaneFrame::tree(v.control, layout)),
        )
    }

    open spec fn plain(v: OwnedRouteView, layout: Layout) -> bool {
        &&& LaneFrame::plain(v.data, layout)
        &&& LaneFrame::plain(v.control, layout)
    }

    proof fn same_tree(a: OwnedRouteView, b: OwnedRouteView, layout: Layout) {
        LaneFrame::same_tree(a.data, b.data, layout);
        LaneFrame::same_tree(a.control, b.control, layout);
        assert(a == b);
    }

    open spec fn bounded(v: OwnedRouteView, layout: Layout) -> bool {
        &&& LaneFrame::bounded(v.data, layout)
        &&& LaneFrame::bounded(v.control, layout)
    }

    proof fn fits(v: OwnedRouteView, layout: Layout) {
        broadcast use {conforms_then, size_then, written_as_then};

        LaneFrame::fits(v.data, layout);
        LaneFrame::fits(v.control, layout);
    }

    fn take_from(buf: &[u8], position: &mut usize, layout: Layout) -> (r: Result<Self, Error>) {
        broadcast use parse_then;

        let public = copy_bytes(take32(buf, position)?);
        let data = LaneFrame::take_from(buf, position, layout)?;
        let control = LaneFrame::take_from(buf, position, layout)?;
        Ok(OwnedRouteFrame { public, data, control })
    }

    fn put_into(&self, out: &mut Vec<u8>, layout: Layout) -> (r: Result<(), Error>) {
        broadcast use {render_then, size_then};

        put32(out, self.public.as_slice())?;
        self.data.put_into(out, layout)?;
        self.control.put_into(out, layout)?;
        assert(out@ =~= old(out)@ + render(Self::shape(layout), Self::tree(self@, layout)));
        Ok(())
    }
}

/// A channel as it stands in an archive.
#[derive(Debug)]
pub struct ArchivedChannel {
    pub head: ChannelHead,
    pub body: ChannelBody,
}

pub struct ArchivedChannelView {
    pub head: ChannelHeadView,
    pub body: ChannelBodyView,
}

impl View for ArchivedChannel {
    type V = ArchivedChannelView;

    open spec fn view(&self) -> ArchivedChannelView {
        ArchivedChannelView {
            head: self.head@,
            body: self.body@,
        }
    }
}

impl Framed for ArchivedChannel {
    open spec fn shape(layout: Layout) -> Shape {
        then(ChannelHead::shape(layout), ChannelBody::shape(layout))
    }

    open spec fn tree(v: ArchivedChannelView, layout: Layout) -> Tree {
        both(ChannelHead::tree(v.head, layout), ChannelBody::tree(v.body, layout))
    }

    open spec fn plain(v: ArchivedChannelView, layout: Layout) -> bool {
        &&& ChannelHead::plain(v.head, layout)
        &&& ChannelBody::plain(v.body, layout)
    }

    proof fn same_tree(a: ArchivedChannelView, b: ArchivedChannelView, layout: Layout) {
        ChannelHead::same_tree(a.head, b.head, layout);
        ChannelBody::same_tree(a.body, b.body, layout);
        assert(a == b);
    }

    open spec fn bounded(v: ArchivedChannelView, layout: Layout) -> bool {
        &&& ChannelHead::bounded(v.head, layout)
        &&& ChannelBody::bounded(v.body, layout)
    }

    proof fn fits(v: ArchivedChannelView, layout: Layout) {
        broadcast use {conforms_then, size_then, written_as_then};

        ChannelHead::fits(v.head, layout);
        ChannelBody::fits(v.body, layout);
    }

    fn take_from(buf: &[u8], position: &mut usize, layout: Layout) -> (r: Result<Self, Error>) {
        broadcast use parse_then;

        let head = ChannelHead::take_from(buf, position, layout)?;
        let body = ChannelBody::take_from(buf, position, layout)?;
        Ok(ArchivedChannel { head, body })
    }

    fn put_into(&self, out: &mut Vec<u8>, layout: Layout) -> (r: Result<(), Error>) {
        broadcast use {render_then, size_then};

        self.head.put_into(out, layout)?;
        self.body.put_into(out, layout)?;
        assert(out@ =~= old(out)@ + render(Self::shape(layout), Self::tree(self@, layout)));
        Ok(())
    }
}

/// The sealed routes of this node in a channel.
#[derive(Debug)]
pub struct RouteEntryFrame {
    pub name: String,
    pub current: Option<Vec<u8>>,
    pub previous: Option<Vec<u8>>,
}

pub struct RouteEntryView {
    pub name: Seq<char>,
    pub current: Option<Seq<u8>>,
    pub previous: Option<Seq<u8>>,
}

impl View for RouteEntryFrame {
    type V = RouteEntryView;

    open spec fn view(&self) -> RouteEntryView {
        RouteEntryView {
            name: self.name@,
            current: bytes_view(self.current),
            previous: bytes_view(self.previous),
        }
    }
}

impl Framed for RouteEntryFrame {
    open spec fn shape(layout: Layout) -> Shape {
        then(Shape::Text(2), then(maybe(Shape::Field(4)), maybe(Shape::Field(4))))
    }

    open spec fn tree(v: RouteEntryView, layout: Layout) -> Tree {
        both(Tree::Bytes(encode_utf8(v.name)), both(maybe_tree(v.current), maybe_tree(v.previous)))
    }

    open spec fn plain(v: RouteEntryView, layout: Layout) -> bool {
        true
    }

    proof fn same_tree(a: RouteEntryView, b: RouteEntryView, layout: Layout) {
        lemma_same_text(a.name, b.name);
        assert(a == b);
    }

    open spec fn bounded(v: RouteEntryView, layout: Layout) -> bool {
        true
    }

    proof fn fits(v: RouteEntryView, layout: Layout) {
        broadcast use {conforms_then, size_then, written_as_then};

        broadcast use vstd::utf8::encode_utf8_valid_utf8;

        reveal_with_fuel(conforms, 3);
        reveal_with_fuel(written_as, 3);
        reveal_with_fuel(size_error, 3);
    }

    fn take_from(buf: &[u8], position: &mut usize, layout: Layout) -> (r: Result<Self, Error>) {
        broadcast use parse_then;

        let name = take_string16(buf, position)?;
        let current = take_opt32(buf, position)?;
        let previous = take_opt32(buf, position)?;
        Ok(RouteEntryFrame { name, current, previous })
    }

    fn put_into(&self, out: &mut Vec<u8>, layout: Layout) -> (r: Result<(), Error>) {
        broadcast use {render_then, size_then};

        put_text16(out, self.name.as_str())?;
        put_opt32(out, &self.current)?;
        put_opt32(out, &self.previous)?;
        assert(out@ =~= old(out)@ + render(Self::shape(layout), Self::tree(self@, layout)));
        Ok(())
    }
}

/// What follows the policy: the inbox, prepared joins, and what they are owned by.
#[derive(Debug)]
pub struct TailFrame {
    pub inbox: Vec<u8>,
    pub next_prep_id: u64,
    pub prepared: Vec<PreparedFrame>,
    pub tls_identity: Vec<u8>,
    pub central: Vec<u8>,
}

pub struct TailView {
    pub inbox: Seq<u8>,
    pub next_prep_id: u64,
    pub prepared: Seq<PreparedView>,
    pub tls_identity: Seq<u8>,
    pub central: Seq<u8>,
}

impl View for TailFrame {
    type V = TailView;

    open spec fn view(&self) -> TailView {
        TailView {
            inbox: self.inbox@,
            next_prep_id: self.next_prep_id,
            prepared: views(self.prepared@),
            tls_identity: self.tls_identity@,
            central: self.central@,
        }
    }
}

impl Framed for TailFrame {
    open spec fn shape(layout: Layout) -> Shape {
        then(
            Shape::Field(4),
            then(
                Shape::Number(8),
                then(
                    Shape::Many(64, Box::new(PreparedFrame::shape(layout))),
                    then(Shape::Field(4), Shape::Field(4)),
                ),
            ),
        )
    }

    open spec fn tree(v: TailView, layout: Layout) -> Tree {
        both(
            Tree::Bytes(v.inbox),
            both(
                Tree::Number(v.next_prep_id as nat),
                both(
                    Tree::Many(trees::<PreparedFrame>(v.prepared, layout)),
                    both(Tree::Bytes(v.tls_identity), Tree::Bytes(v.central)),
                ),
            ),
        )
    }

    open spec fn plain(v: TailView, layout: Layout) -> bool {
        all_plain::<PreparedFrame>(v.prepared, layout)
    }

    proof fn same_tree(a: TailView, b: TailView, layout: Layout) {
        lemma_same_trees::<PreparedFrame>(a.prepared, b.prepared, layout);
        assert(a == b);
    }

    open spec fn bounded(v: TailView, layout: Layout) -> bool {
        all_bounded::<PreparedFrame>(v.prepared, 64 as nat, layout)
    }

    proof fn fits(v: TailView, layout: Layout) {
        broadcast use {conforms_then, size_then, written_as_then};

        lemma_be_limits();
        lemma_many_fits::<PreparedFrame>(v.prepared, 64 as nat, layout);
    }

    fn take_from(buf: &[u8], position: &mut usize, layout: Layout) -> (r: Result<Self, Error>) {
        broadcast use parse_then;

        let inbox = copy_bytes(take32(buf, position)?);
        let next_prep_id: u64 = take_u64(buf, position)?;
        let prepared = take_many::<PreparedFrame>(buf, position, 64, layout)?;
        let tls_identity = copy_bytes(take32(buf, position)?);
        let central = copy_bytes(take32(buf, position)?);
        Ok(TailFrame { inbox, next_prep_id, prepared, tls_identity, central })
    }

    fn put_into(&self, out: &mut Vec<u8>, layout: Layout) -> (r: Result<(), Error>) {
        broadcast use {render_then, size_then};

        put32(out, self.inbox.as_slice())?;
        put_u64(out, self.next_prep_id);
        put_many(&self.prepared, out, Ghost(64 as nat), layout)?;
        put32(out, self.tls_identity.as_slice())?;
        put32(out, self.central.as_slice())?;
        assert(out@ =~= old(out)@ + render(Self::shape(layout), Self::tree(self@, layout)));
        Ok(())
    }
}

/// The end of an archive.
#[derive(Debug)]
pub struct TrailerFrame {
    pub machine: Vec<u8>,
    pub owner: Vec<u8>,
    pub directory: Vec<u8>,
    pub routes: Vec<RouteEntryFrame>,
    pub receipts: Vec<u8>,
}

pub struct TrailerFrameView {
    pub machine: Seq<u8>,
    pub owner: Seq<u8>,
    pub directory: Seq<u8>,
    pub routes: Seq<RouteEntryView>,
    pub receipts: Seq<u8>,
}

impl View for TrailerFrame {
    type V = TrailerFrameView;

    open spec fn view(&self) -> TrailerFrameView {
        TrailerFrameView {
            machine: self.machine@,
            owner: self.owner@,
            directory: self.directory@,
            routes: views(self.routes@),
            receipts: self.receipts@,
        }
    }
}

impl Framed for TrailerFrame {
    open spec fn shape(layout: Layout) -> Shape {
        then(
            Shape::Field(4),
            then(
                Shape::Field(4),
                then(
                    Shape::Field(4),
                    then(
                        Shape::Many(1024, Box::new(RouteEntryFrame::shape(layout))),
                        since(layout.version >= 21, Shape::Field(4)),
                    ),
                ),
            ),
        )
    }

    open spec fn tree(v: TrailerFrameView, layout: Layout) -> Tree {
        both(
            Tree::Bytes(v.machine),
            both(
                Tree::Bytes(v.owner),
                both(
                    Tree::Bytes(v.directory),
                    both(
                        Tree::Many(trees::<RouteEntryFrame>(v.routes, layout)),
                        where_present(layout.version >= 21, Tree::Bytes(v.receipts)),
                    ),
                ),
            ),
        )
    }

    open spec fn plain(v: TrailerFrameView, layout: Layout) -> bool {
        &&& all_plain::<RouteEntryFrame>(v.routes, layout)
        &&& (layout.version >= 21 || v.receipts.len() == 0)
    }

    proof fn same_tree(a: TrailerFrameView, b: TrailerFrameView, layout: Layout) {
        reveal(since);
        reveal(where_present);
        lemma_same_trees::<RouteEntryFrame>(a.routes, b.routes, layout);
        assert(a.receipts =~= b.receipts);
        assert(a == b);
    }

    open spec fn bounded(v: TrailerFrameView, layout: Layout) -> bool {
        all_bounded::<RouteEntryFrame>(v.routes, 1024 as nat, layout)
    }

    proof fn fits(v: TrailerFrameView, layout: Layout) {
        broadcast use {conforms_then, size_then, written_as_then};

        reveal(since);
        reveal(where_present);
        lemma_many_fits::<RouteEntryFrame>(v.routes, 1024 as nat, layout);
    }

    fn take_from(buf: &[u8], position: &mut usize, layout: Layout) -> (r: Result<Self, Error>) {
        broadcast use parse_then;

        let machine = copy_bytes(take32(buf, position)?);
        let owner = copy_bytes(take32(buf, position)?);
        let directory = copy_bytes(take32(buf, position)?);
        let routes = take_many::<RouteEntryFrame>(buf, position, 1024, layout)?;
        let receipts = take32_if(layout.version >= 21, buf, position)?;
        Ok(TrailerFrame { machine, owner, directory, routes, receipts })
    }

    fn put_into(&self, out: &mut Vec<u8>, layout: Layout) -> (r: Result<(), Error>) {
        broadcast use {render_then, size_then};

        put32(out, self.machine.as_slice())?;
        put32(out, self.owner.as_slice())?;
        put32(out, self.directory.as_slice())?;
        put_many(&self.routes, out, Ghost(1024 as nat), layout)?;
        put32_if(layout.version >= 21, &self.receipts, out)?;
        assert(out@ =~= old(out)@ + render(Self::shape(layout), Self::tree(self@, layout)));
        Ok(())
    }
}

impl Key for InboxEntryFrame {
    fn same_key(&self, other: &Self) -> (r: bool) {
        self.sequence == other.sequence && same_bytes(self.peer.as_slice(), other.peer.as_slice()) && same_id16(
            &self.message_id,
            &other.message_id,
        ) && self.received_at_unix == other.received_at_unix && same_bytes(self.body.as_slice(), other.body.as_slice())
    }

    fn copy_key(&self) -> (r: Self) {
        InboxEntryFrame {
            sequence: self.sequence,
            peer: copy_bytes(self.peer.as_slice()),
            message_id: self.message_id,
            received_at_unix: self.received_at_unix,
            body: copy_bytes(self.body.as_slice()),
        }
    }
}

fn same_short_ids(a: &Vec<ShortIdFrame>, b: &Vec<ShortIdFrame>) -> (r: bool)
    ensures
        r == (views(a@) == views(b@)),
{
    if a.len() != b.len() {
        assert(views(a@).len() != views(b@).len());
        return false;
    }
    let mut i: usize = 0;
    while i < a.len()
        invariant
            i <= a.len(),
            a.len() == b.len(),
            forall|j: int| 0 <= j < i ==> a@[j]@ == b@[j]@,
        decreases a.len() - i,
    {
        if !same_id16(&a[i].id, &b[i].id) {
            assert(views(a@)[i as int].id != views(b@)[i as int].id);
            return false;
        }
        i += 1;
    }
    assert(views(a@) =~= views(b@));
    true
}

impl CentralOwnership {
    pub fn same(&self, other: &CentralOwnership) -> (r: bool)
        ensures
            r == (self@ == other@),
    {
        same_short_ids(&self.primary, &other.primary) && same_short_ids(&self.scoped, &other.scoped) && same_id(
            &self.policy_hash,
            &other.policy_hash,
        )
    }
}

} // verus!
