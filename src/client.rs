use vstd::prelude::*;
use crate::geom::Point;
use crate::matrix::Matrix;
use crate::canvas::{Rgba, Pixel, Update, UpdateId, ClientMessage, ServerMessage, Texture, draw, inverse, is_total, last_write, lemma_draw_at};

verus! {

/// An edit that this client made, with the edit that undoes it.
#[derive(Debug)]
pub struct ReversibleUpdate {
    pub forward: Update,
    pub backward: Update,
}

/// Why a batch of server messages was refused.
#[derive(Clone, Copy, Debug, PartialEq, Eq, Structural)]
pub enum ProtocolError {
    /// The whole canvas came again after the connection was set up.
    UnexpectedInitial,
    /// A download reaches beyond the range of coordinates.
    DownloadOutOfRange,
    /// The batch acknowledges an id that no unconfirmed edit has.
    UnknownAck,
}

/// A pending edit as a mathematical value: its id, its pixels, and the pixels that
/// undo it.
pub type PendingModel = (UpdateId, Seq<Pixel>, Seq<Pixel>);

/// The canvas after undoing `p`, newest first.
pub open spec fn undo_all(c: Map<Point, Rgba>, p: Seq<PendingModel>) -> Map<Point, Rgba>
    decreases p.len(),
{
    if p.len() == 0 {
        c
    } else {
        undo_all(draw(c, p.last().2), p.drop_last())
    }
}

/// The canvas after painting the edits of `p`, oldest first.
pub open spec fn redo_all(c: Map<Point, Rgba>, p: Seq<PendingModel>) -> Map<Point, Rgba>
    decreases p.len(),
{
    if p.len() == 0 {
        c
    } else {
        draw(redo_all(c, p.drop_last()), p.last().1)
    }
}

/// Where the still unconfirmed edits of `p` begin once `ack` is acknowledged: just
/// after the newest edit whose id is `ack`, or at the start where none is.
pub open spec fn ack_cut(p: Seq<PendingModel>, ack: Option<UpdateId>) -> int
    decreases p.len(),
{
    if p.len() == 0 {
        0
    } else if ack == Some(p.last().0) {
        p.len() as int
    } else {
        ack_cut(p.drop_last(), ack)
    }
}

/// Where an acknowledged id is found, the edit just before the cut has that id.
proof fn lemma_ack_cut_found(p: Seq<PendingModel>, a: UpdateId)
    ensures
        0 <= ack_cut(p, Some(a)) <= p.len(),
        ack_cut(p, Some(a)) > 0 ==> p[ack_cut(p, Some(a)) - 1].0 == a,
    decreases p.len(),
{
    if p.len() > 0 && Some(a) != Some(p.last().0) {
        lemma_ack_cut_found(p.drop_last(), a);
    }
}

/// The larger of two optional ids.
pub open spec fn max_id(a: Option<UpdateId>, b: Option<UpdateId>) -> Option<UpdateId> {
    match (a, b) {
        (Some(x), Some(y)) => Some(if x >= y { x } else { y }),
        (Some(x), None) => Some(x),
        (None, _) => b,
    }
}

/// The largest id that `msgs` acknowledge, if any.
pub open spec fn max_ack(msgs: Seq<ServerMessage>) -> Option<UpdateId>
    decreases msgs.len(),
{
    if msgs.len() == 0 {
        None
    } else {
        max_id(
            max_ack(msgs.drop_last()),
            match msgs.last() {
                ServerMessage::Update { your_id, .. } => your_id,
                _ => None,
            },
        )
    }
}

/// A download fits in the coordinate range.
pub open spec fn download_fits(position: Point, data: Matrix<Rgba>) -> bool {
    position.x + data.rows() <= i32::MAX + 1 && position.y + data.cols() <= i32::MAX + 1
}

/// The pixels that a download paints, row after row.
pub open spec fn upload_pixels(position: Point, data: Matrix<Rgba>) -> Seq<Pixel> {
    Seq::new(
        data.rows() * data.cols(),
        |k: int|
            Pixel {
                position: Point {
                    x: (position.x + k / (data.cols() as int)) as i32,
                    y: (position.y + k % (data.cols() as int)) as i32,
                },
                color: data.cells()[k],
            },
    )
}

/// The pixels with which a server message changes the canvas.
pub open spec fn message_pixels(m: ServerMessage) -> Seq<Pixel> {
    match m {
        ServerMessage::Update { update, .. } => update.pixels(),
        ServerMessage::Download { position, data } => upload_pixels(position, data),
        ServerMessage::Initial(_) => Seq::empty(),
    }
}

/// The canvas after the changes of `msgs`, in order.
pub open spec fn apply_msgs(c: Map<Point, Rgba>, msgs: Seq<ServerMessage>) -> Map<Point, Rgba>
    decreases msgs.len(),
{
    if msgs.len() == 0 {
        c
    } else {
        draw(apply_msgs(c, msgs.drop_last()), message_pixels(msgs.last()))
    }
}

/// The batch acknowledges an id that none of the edits `p` has.
pub open spec fn unknown_ack(p: Seq<PendingModel>, msgs: Seq<ServerMessage>) -> bool {
    max_ack(msgs) is Some && ack_cut(p, max_ack(msgs)) == 0
}

/// The batch is one that a client accepts.
pub open spec fn batch_ok(msgs: Seq<ServerMessage>) -> bool {
    forall|i: int|
        0 <= i < msgs.len() ==> match #[trigger] msgs[i] {
            ServerMessage::Initial(_) => false,
            ServerMessage::Download { position, data } => data.wf() && download_fits(position, data),
            ServerMessage::Update { .. } => true,
        }
}

/// Undoing a sequence is undoing its tail, then its head.
pub proof fn lemma_undo_all_append(c: Map<Point, Rgba>, a: Seq<PendingModel>, b: Seq<PendingModel>)
    ensures
        undo_all(c, a + b) == undo_all(undo_all(c, b), a),
    decreases b.len(),
{
    if b.len() == 0 {
        assert(a + b =~= a);
    } else {
        assert((a + b).drop_last() =~= a + b.drop_last());
        lemma_undo_all_append(draw(c, b.last().2), a, b.drop_last());
    }
}

/// The pixels of a download, row after row.
fn upload(position: Point, data: &Matrix<Rgba>) -> (r: Vec<Pixel>)
    requires
        data.wf(),
        download_fits(position, *data),
    ensures
        r@ == upload_pixels(position, *data),
{
    let size = data.size();
    let cells = data.as_slice();
    let n = cells.len();
    let mut r: Vec<Pixel> = Vec::with_capacity(n);
    let mut k: usize = 0;
    assert(n == size.x * size.y);
    while k < n
        invariant
            n == cells@.len(),
            n == size.x * size.y,
            size.x == data.rows(),
            size.y == data.cols(),
            cells@ == data.cells(),
            download_fits(position, *data),
            k <= n,
            r@ == upload_pixels(position, *data).take(k as int),
        decreases n - k,
    {
        assert(size.y > 0) by {
            if size.y == 0 {
                assert(size.x * size.y == 0) by (nonlinear_arith)
                    requires
                        size.y == 0,
                ;
            }
        }
        proof {
            crate::geom::lemma_cell_split(k as int, size.y as int);
        }
        assert(k / size.y < size.x && k % size.y < size.y) by (nonlinear_arith)
            requires
                k < n,
                n == size.x * size.y,
                size.y > 0,
                (k / size.y) * size.y + k % size.y == k,
                0 <= k % size.y < size.y,
        ;
        let i = k / size.y;
        let j = k % size.y;
        let x = (position.x as i64 + i as i64) as i32;
        let y = (position.y as i64 + j as i64) as i32;
        r.push(Pixel { position: Point { x, y }, color: cells[k] });
        k = k + 1;
        assert(r@ =~= upload_pixels(position, *data).take(k as int));
    }
    assert(r@ =~= upload_pixels(position, *data));
    r
}

/// The edit with which a message of an accepted batch changes the canvas.
fn message_update(m: &ServerMessage) -> (r: Update)
    requires
        match *m {
            ServerMessage::Initial(_) => false,
            ServerMessage::Download { position, data } => data.wf() && download_fits(position, data),
            ServerMessage::Update { .. } => true,
        },
    ensures
        r.pixels() == message_pixels(*m),
{
    match m {
        ServerMessage::Update { update, .. } => update.copied(),
        ServerMessage::Download { position, data } => Update::Draw(upload(*position, data)),
        ServerMessage::Initial(_) => Update::Draw(Vec::new()),
    }
}

/// Whether `msgs` is a batch that a client accepts, and if not, why.
fn check_batch(msgs: &Vec<ServerMessage>) -> (r: Result<(), ProtocolError>)
    ensures
        r is Ok <==> batch_ok(msgs@),
        r != Err::<(), ProtocolError>(ProtocolError::UnknownAck),
        r == Err::<(), ProtocolError>(ProtocolError::UnexpectedInitial) <==> exists|i: int|
            0 <= i < msgs@.len() && #[trigger] msgs@[i] is Initial,
{
    let mut i: usize = 0;
    while i < msgs.len()
        invariant
            i <= msgs@.len(),
            forall|j: int| 0 <= j < i ==> !(#[trigger] msgs@[j] is Initial),
        decreases msgs@.len() - i,
    {
        if let ServerMessage::Initial(_) = &msgs[i] {
            return Err(ProtocolError::UnexpectedInitial);
        }
        i = i + 1;
    }
    let mut i: usize = 0;
    while i < msgs.len()
        invariant
            i <= msgs@.len(),
            forall|j: int| 0 <= j < msgs@.len() ==> !(#[trigger] msgs@[j] is Initial),
            forall|j: int|
                0 <= j < i ==> match #[trigger] msgs@[j] {
                    ServerMessage::Initial(_) => false,
                    ServerMessage::Download { position, data } => data.wf() && download_fits(
                        position,
                        data,
                    ),
                    ServerMessage::Update { .. } => true,
                },
        decreases msgs@.len() - i,
    {
        if let ServerMessage::Download { position, data } = &msgs[i] {
            if !data.is_well_formed() {
                return Err(ProtocolError::DownloadOutOfRange);
            }
            let d = data.size();
            let room_x = (i32::MAX as i64 + 1 - position.x as i64) as u64;
            let room_y = (i32::MAX as i64 + 1 - position.y as i64) as u64;
            if d.x as u64 > room_x || d.y as u64 > room_y {
                return Err(ProtocolError::DownloadOutOfRange);
            }
        }
        i = i + 1;
    }
    Ok(())
}

/// The undo patch of a pending edit paints the same places, in the same order, as the edit.
pub open spec fn same_places(r: PendingModel) -> bool {
    &&& r.2.len() == r.1.len()
    &&& forall|i: int| 0 <= i < r.1.len() ==> #[trigger] r.2[i].position == r.1[i].position
}

/// Some edit of `p` paints `q`.
pub open spec fn pend_touches(p: Seq<PendingModel>, q: Point) -> bool
    decreases p.len(),
{
    if p.len() == 0 {
        false
    } else {
        pend_touches(p.drop_last(), q) || last_write(p.last().1, q) is Some
    }
}

/// Two pixel sequences with the same places paint the same places.
proof fn lemma_same_places_write(a: Seq<Pixel>, b: Seq<Pixel>, q: Point)
    requires
        a.len() == b.len(),
        forall|i: int| 0 <= i < a.len() ==> #[trigger] a[i].position == b[i].position,
    ensures
        (last_write(a, q) is Some) == (last_write(b, q) is Some),
    decreases a.len(),
{
    if a.len() > 0 {
        lemma_same_places_write(a.drop_last(), b.drop_last(), q);
    }
}

/// Redoing edits leaves the places they do not paint as they were, and gives the
/// places they paint colors that do not depend on the canvas below.
proof fn lemma_redo_at(b: Map<Point, Rgba>, b2: Map<Point, Rgba>, p: Seq<PendingModel>, q: Point)
    ensures
        redo_all(b, p).contains_key(q) == (b.contains_key(q) || pend_touches(p, q)),
        !pend_touches(p, q) ==> redo_all(b, p)[q] == b[q],
        pend_touches(p, q) ==> redo_all(b, p)[q] == redo_all(b2, p)[q],
    decreases p.len(),
{
    if p.len() > 0 {
        lemma_redo_at(b, b2, p.drop_last(), q);
        lemma_draw_at(redo_all(b, p.drop_last()), p.last().1, q);
        lemma_draw_at(redo_all(b2, p.drop_last()), p.last().1, q);
    }
}

/// Undoing edits whose patches paint their places leaves every other place as it was.
proof fn lemma_undo_at(c: Map<Point, Rgba>, p: Seq<PendingModel>, q: Point)
    requires
        forall|i: int| 0 <= i < p.len() ==> same_places(#[trigger] p[i]),
    ensures
        undo_all(c, p).contains_key(q) == (c.contains_key(q) || pend_touches(p, q)),
        !pend_touches(p, q) ==> undo_all(c, p)[q] == c[q],
    decreases p.len(),
{
    if p.len() > 0 {
        let r = p.last();
        assert(same_places(p[p.len() - 1]));
        lemma_same_places_write(r.2, r.1, q);
        lemma_draw_at(c, r.2, q);
        lemma_undo_at(draw(c, r.2), p.drop_last(), q);
    }
}

/// Undoing and then redoing the pending edits gives back a canvas that has them on top.
pub proof fn lemma_redo_undo(b: Map<Point, Rgba>, p: Seq<PendingModel>)
    requires
        is_total(b),
        forall|i: int| 0 <= i < p.len() ==> same_places(#[trigger] p[i]),
    ensures
        redo_all(undo_all(redo_all(b, p), p), p) == redo_all(b, p),
{
    let c = redo_all(b, p);
    let u = undo_all(c, p);
    let d = redo_all(u, p);
    assert forall|q: Point| #[trigger] d.contains_key(q) == c.contains_key(q) && d[q] == c[q] by {
        lemma_redo_at(b, u, p, q);
        lemma_redo_at(u, b, p, q);
        lemma_undo_at(c, p, q);
    }
    assert(d =~= c);
}

/// Some message of `msgs` paints `q`.
pub open spec fn msgs_touch(msgs: Seq<ServerMessage>, q: Point) -> bool
    decreases msgs.len(),
{
    if msgs.len() == 0 {
        false
    } else {
        msgs_touch(msgs.drop_last(), q) || last_write(message_pixels(msgs.last()), q) is Some
    }
}

proof fn lemma_msgs_at(x: Map<Point, Rgba>, y: Map<Point, Rgba>, msgs: Seq<ServerMessage>, q: Point)
    ensures
        apply_msgs(x, msgs).contains_key(q) == (x.contains_key(q) || msgs_touch(msgs, q)),
        !msgs_touch(msgs, q) ==> apply_msgs(x, msgs)[q] == x[q],
        msgs_touch(msgs, q) ==> apply_msgs(x, msgs)[q] == apply_msgs(y, msgs)[q],
    decreases msgs.len(),
{
    if msgs.len() > 0 {
        lemma_msgs_at(x, y, msgs.drop_last(), q);
        lemma_draw_at(apply_msgs(x, msgs.drop_last()), message_pixels(msgs.last()), q);
        lemma_draw_at(apply_msgs(y, msgs.drop_last()), message_pixels(msgs.last()), q);
    }
}

proof fn lemma_touch_split(p: Seq<PendingModel>, k: int, q: Point)
    requires
        0 <= k <= p.len(),
    ensures
        pend_touches(p, q) == (pend_touches(p.take(k), q) || pend_touches(p.skip(k), q)),
    decreases p.len(),
{
    if k == p.len() {
        assert(p.take(k) =~= p);
        assert(p.skip(k) =~= Seq::<PendingModel>::empty());
    } else {
        assert(p.drop_last().take(k) =~= p.take(k));
        assert(p.drop_last().skip(k) =~= p.skip(k).drop_last());
        assert(p.skip(k).last() == p.last());
        lemma_touch_split(p.drop_last(), k, q);
    }
}

/// Reconciliation keeps the client convergent: if the client showed the canvas `b`
/// with the pending edits `p` on top, and the batch `msgs` repaints every place of the
/// edits that it acknowledges (the first `k`, which the server has echoed), then undoing
/// `p`, painting `msgs` and replaying the rest of `p` shows `b` with `msgs` painted and
/// the still unconfirmed edits on top.
pub proof fn lemma_reconcile(b: Map<Point, Rgba>, p: Seq<PendingModel>, msgs: Seq<ServerMessage>, k: int)
    requires
        is_total(b),
        forall|i: int| 0 <= i < p.len() ==> same_places(#[trigger] p[i]),
        0 <= k <= p.len(),
        forall|q: Point| #[trigger] pend_touches(p.take(k), q) ==> msgs_touch(msgs, q),
    ensures
        redo_all(apply_msgs(undo_all(redo_all(b, p), p), msgs), p.skip(k)) == redo_all(
            apply_msgs(b, msgs),
            p.skip(k),
        ),
{
    let c = redo_all(b, p);
    let u = undo_all(c, p);
    let b1 = apply_msgs(u, msgs);
    let b2 = apply_msgs(b, msgs);
    let kept = p.skip(k);
    let lhs = redo_all(b1, kept);
    let rhs = redo_all(b2, kept);
    assert forall|q: Point| #[trigger] lhs.contains_key(q) == rhs.contains_key(q) && lhs[q] == rhs[q] by {
        lemma_redo_at(b1, b2, kept, q);
        lemma_redo_at(b2, b1, kept, q);
        lemma_msgs_at(u, b, msgs, q);
        lemma_msgs_at(b, u, msgs, q);
        lemma_touch_split(p, k, q);
        lemma_undo_at(c, p, q);
        lemma_redo_at(b, b, p, q);
        assert(b.contains_key(q));
    }
    assert(lhs =~= rhs);
}

/// The client's side of the protocol: its view of the canvas, painted ahead of the
/// server with the edits that the server has not acknowledged yet.
pub struct Client {
    next_update_id: UpdateId,
    unconfirmed_updates: Vec<(UpdateId, ReversibleUpdate)>,
    state: Texture,
    base: Ghost<Map<Point, Rgba>>,
}

pub open spec fn model_of(r: (UpdateId, ReversibleUpdate)) -> PendingModel {
    (r.0, r.1.forward.pixels(), r.1.backward.pixels())
}

impl Client {
    pub closed spec fn wf(&self) -> bool {
        &&& self.state.wf()
        &&& is_total(self.base@)
        &&& self.state@ == redo_all(self.base@, self.pending())
        &&& forall|i: int| 0 <= i < self.pending().len() ==> same_places(#[trigger] self.pending()[i])
        &&& forall|i: int, j: int|
            0 <= i < j < self.pending().len() ==> self.pending()[i].0 < self.pending()[j].0
        &&& forall|i: int| 0 <= i < self.pending().len() ==> #[trigger] self.pending()[i].0 < self.next_update_id
    }

    pub closed spec fn next_id(&self) -> UpdateId {
        self.next_update_id
    }

    /// The unconfirmed edits, oldest first.
    pub closed spec fn pending(&self) -> Seq<PendingModel> {
        self.unconfirmed_updates@.map_values(|r: (UpdateId, ReversibleUpdate)| model_of(r))
    }

    /// The canvas without the unconfirmed edits, as the client reckons it.
    pub closed spec fn base(&self) -> Map<Point, Rgba> {
        self.base@
    }

    /// The canvas that the client shows.
    pub closed spec fn canvas(&self) -> Map<Point, Rgba> {
        self.state@
    }

    /// A client that shows `initial` and has made no edit.
    pub fn new(initial: Texture) -> (r: Client)
        requires
            initial.wf(),
        ensures
            r.wf(),
            r.canvas() == initial@,
            r.pending() == Seq::<PendingModel>::empty(),
            r.next_id() == 0,
    {
        proof {
            crate::canvas::lemma_texture_total(&initial);
        }
        let ghost b = initial@;
        let r = Client {
            next_update_id: 0,
            unconfirmed_updates: Vec::new(),
            state: initial,
            base: Ghost(b),
        };
        assert(r.pending() =~= Seq::<PendingModel>::empty());
        r
    }

    /// The color that the client shows at `p`.
    pub fn color(&self, p: Point) -> (r: Rgba)
        ensures
            r == self.canvas()[p],
    {
        self.state.get(p)
    }

    /// The ids of the unconfirmed edits, oldest first.
    pub fn pending_ids(&self) -> (r: Vec<UpdateId>)
        ensures
            r@.len() == self.pending().len(),
            forall|i: int| 0 <= i < r@.len() ==> #[trigger] r@[i] == self.pending()[i].0,
    {
        let mut r: Vec<UpdateId> = Vec::new();
        let mut i: usize = 0;
        while i < self.unconfirmed_updates.len()
            invariant
                i <= self.unconfirmed_updates@.len(),
                r@.len() == i,
                forall|j: int| 0 <= j < i ==> #[trigger] r@[j] == self.pending()[j].0,
            decreases self.unconfirmed_updates@.len() - i,
        {
            r.push(self.unconfirmed_updates[i].0);
            i = i + 1;
        }
        r
    }

    /// A local edit: paints `update` at once, records it with the edit that undoes it,
    /// and returns the message that sends it to the server. Gives `None`, and changes
    /// nothing, once every id has been used.
    pub fn update(&mut self, update: Update) -> (r: Option<ClientMessage>)
        requires
            old(self).wf(),
        ensures
            final(self).wf(),
            r is None <==> old(self).next_id() == u64::MAX,
            r is None ==> *final(self) == *old(self),
            r is Some ==> {
                &&& final(self).next_id() == old(self).next_id() + 1
                &&& final(self).canvas() == draw(old(self).canvas(), update.pixels())
                &&& final(self).pending() == old(self).pending().push(
                    (
                        old(self).next_id(),
                        update.pixels(),
                        inverse(old(self).canvas(), update.pixels()),
                    ),
                )
                &&& match r->0 {
                    ClientMessage::Update { id, update: sent } => id == old(self).next_id()
                        && sent.pixels() == update.pixels(),
                    _ => false,
                }
            },
    {
        if self.next_update_id == u64::MAX {
            return None;
        }
        let id = self.next_update_id;
        self.next_update_id = id + 1;
        let sent = update.copied();
        let forward = update.copied();
        let backward = self.state.apply(update);
        self.unconfirmed_updates.push((id, ReversibleUpdate { forward, backward }));
        proof {
            let rec = (id, update.pixels(), inverse(old(self).canvas(), update.pixels()));
            assert(self.pending() =~= old(self).pending().push(rec));
            assert(self.pending().drop_last() =~= old(self).pending());
            assert(same_places(self.pending()[self.pending().len() - 1]));
            assert forall|i: int| 0 <= i < self.pending().len() implies same_places(
                #[trigger] self.pending()[i],
            ) by {
                if i < old(self).pending().len() {
                    assert(self.pending()[i] == old(self).pending()[i]);
                }
            }
        }
        Some(ClientMessage::Update { id, update: sent })
    }

    /// Processes one batch of server messages. The edits back to and including the
    /// newest one that the batch acknowledges are undone and dropped, the edits after
    /// it are undone too, the changes of the batch are painted in order, and then the
    /// edits after the acknowledged one are painted again, oldest first, and stay
    /// unconfirmed. A batch that holds a whole canvas, or a download that does not fit
    /// the coordinate range, is refused and changes nothing.
    pub fn handle_messages(&mut self, messages: Vec<ServerMessage>) -> (r: Result<(), ProtocolError>)
        requires
            old(self).wf(),
        ensures
            final(self).wf(),
            r is Err <==> (!batch_ok(messages@) || unknown_ack(old(self).pending(), messages@)),
            r == Err::<(), ProtocolError>(ProtocolError::UnknownAck) <==> (batch_ok(messages@)
                && unknown_ack(old(self).pending(), messages@)),
            r == Err::<(), ProtocolError>(ProtocolError::UnexpectedInitial) <==> exists|i: int|
                0 <= i < messages@.len() && #[trigger] messages@[i] is Initial,
            r is Err ==> *final(self) == *old(self),
            messages@.len() == 0 ==> r is Ok && final(self).canvas() == old(self).canvas()
                && final(self).pending() == old(self).pending(),
            r is Ok && (forall|q: Point| #[trigger] pend_touches(
                old(self).pending().take(ack_cut(old(self).pending(), max_ack(messages@))),
                q,
            ) ==> msgs_touch(messages@, q)) ==> final(self).canvas() == redo_all(
                apply_msgs(old(self).base(), messages@),
                final(self).pending(),
            ),
            r is Ok ==> final(self).base() == apply_msgs(
                undo_all(old(self).canvas(), old(self).pending()),
                messages@,
            ),
            r is Ok && max_ack(messages@) is Some ==> {
                let a = max_ack(messages@)->0;
                let cut = ack_cut(old(self).pending(), max_ack(messages@));
                &&& forall|i: int|
                    0 <= i < final(self).pending().len() ==> #[trigger] final(self).pending()[i].0 > a
                &&& forall|j: int| 0 <= j < cut ==> #[trigger] old(self).pending()[j].0 <= a
            },
            r is Ok ==> {
                let cut = ack_cut(old(self).pending(), max_ack(messages@));
                &&& final(self).next_id() == old(self).next_id()
                &&& final(self).pending() == old(self).pending().subrange(
                    cut,
                    old(self).pending().len() as int,
                )
                &&& final(self).canvas() == redo_all(
                    apply_msgs(undo_all(old(self).canvas(), old(self).pending()), messages@),
                    final(self).pending(),
                )
            },
    {
        match check_batch(&messages) {
            Err(e) => return Err(e),
            Ok(()) => {},
        }
        let ghost start_pending = self.pending();
        let ghost start_canvas = self.canvas();
        // the newest id that the batch acknowledges
        let mut ack: Option<UpdateId> = None;
        let mut i: usize = 0;
        while i < messages.len()
            invariant
                i <= messages@.len(),
                ack == max_ack(messages@.take(i as int)),
            decreases messages@.len() - i,
        {
            proof {
                assert(messages@.take(i + 1).drop_last() =~= messages@.take(i as int));
            }
            if let ServerMessage::Update { your_id: Some(y), .. } = &messages[i] {
                ack = match ack {
                    Some(a) => Some(if a >= *y { a } else { *y }),
                    None => Some(*y),
                };
            }
            i = i + 1;
        }
        assert(messages@.take(i as int) =~= messages@);
        // the place where the edits that stay unconfirmed begin
        let mut k: usize = self.unconfirmed_updates.len();
        let mut found = false;
        assert(start_pending.take(k as int) =~= start_pending);
        while k > 0 && !found
            invariant
                self.pending() == start_pending,
                k <= start_pending.len(),
                found ==> k > 0 && ack == Some(start_pending[k - 1].0),
                ack_cut(start_pending, ack) == ack_cut(start_pending.take(k as int), ack),
            decreases k + if found { 0int } else { 1int },
        {
            assert(self.pending()[k - 1].0 == self.unconfirmed_updates@[k - 1].0);
            if ack == Some(self.unconfirmed_updates[k - 1].0) {
                found = true;
            } else {
                assert(start_pending.take(k as int).drop_last() =~= start_pending.take(k - 1));
                k = k - 1;
            }
        }
        proof {
            if found {
                assert(start_pending.take(k as int).last() == start_pending[k - 1]);
            }
            assert(ack_cut(start_pending, ack) == k);
            if ack is Some && found {
                assert(k > 0);
            }
        }
        if ack.is_some() && k == 0 {
            return Err(ProtocolError::UnknownAck);
        }
        let ghost cut_at = k;
        let redo = self.unconfirmed_updates.split_off(k);
        let ghost redo_m = redo@.map_values(|r: (UpdateId, ReversibleUpdate)| model_of(r));
        let ghost keep_m = self.pending();
        proof {
            assert(redo_m =~= start_pending.subrange(k as int, start_pending.len() as int));
            assert(keep_m =~= start_pending.subrange(0, k as int));
            assert(start_pending =~= keep_m + redo_m);
        }
        // undo the edits after the cut, newest first
        let mut i: usize = redo.len();
        assert(redo_m.take(i as int) =~= redo_m);
        while i > 0
            invariant
                i <= redo@.len(),
                redo_m == redo@.map_values(|r: (UpdateId, ReversibleUpdate)| model_of(r)),
                undo_all(self.canvas(), redo_m.take(i as int)) == undo_all(start_canvas, redo_m),
                self.pending() == keep_m,
                self.state.wf(),
                self.next_id() == old(self).next_id(),
            decreases i,
        {
            let back = redo[i - 1].1.backward.copied();
            proof {
                assert(redo_m.take(i as int).drop_last() =~= redo_m.take(i - 1));
                assert(redo_m.take(i as int).last() == redo_m[i - 1]);
            }
            self.state.update(back);
            i = i - 1;
        }
        assert(redo_m.take(0) =~= Seq::<PendingModel>::empty());
        // undo and drop the rest, newest first
        while self.unconfirmed_updates.len() > 0
            invariant
                undo_all(self.canvas(), self.pending()) == undo_all(undo_all(start_canvas, redo_m), keep_m),
                self.state.wf(),
                self.next_id() == old(self).next_id(),
            decreases self.unconfirmed_updates@.len(),
        {
            let ghost before = self.pending();
            let (_, rec) = self.unconfirmed_updates.pop().unwrap();
            proof {
                assert(self.pending() =~= before.drop_last());
            }
            self.state.update(rec.backward);
        }
        proof {
            assert(self.pending() =~= Seq::<PendingModel>::empty());
            lemma_undo_all_append(start_canvas, keep_m, redo_m);
        }
        let ghost base = self.canvas();
        // paint what the server sent, in order
        let mut i: usize = 0;
        while i < messages.len()
            invariant
                i <= messages@.len(),
                batch_ok(messages@),
                self.canvas() == apply_msgs(base, messages@.take(i as int)),
                self.pending() == Seq::<PendingModel>::empty(),
                self.state.wf(),
                self.next_id() == old(self).next_id(),
            decreases messages@.len() - i,
        {
            assert(batch_ok(messages@) ==> match messages@[i as int] {
                ServerMessage::Initial(_) => false,
                ServerMessage::Download { position, data } => data.wf() && download_fits(position, data),
                ServerMessage::Update { .. } => true,
            });
            let u = message_update(&messages[i]);
            self.state.update(u);
            proof {
                assert(messages@.take(i + 1).drop_last() =~= messages@.take(i as int));
            }
            i = i + 1;
        }
        assert(messages@.take(i as int) =~= messages@);
        let ghost applied = self.canvas();
        proof {
            crate::canvas::lemma_texture_total(&self.state);
        }
        // paint again the edits after the cut, oldest first
        let mut i: usize = 0;
        while i < redo.len()
            invariant
                i <= redo@.len(),
                redo_m == redo@.map_values(|r: (UpdateId, ReversibleUpdate)| model_of(r)),
                self.pending() == redo_m.take(i as int),
                self.canvas() == redo_all(applied, redo_m.take(i as int)),
                is_total(applied),
                self.state.wf(),
                self.next_id() == old(self).next_id(),
            decreases redo@.len() - i,
        {
            let id = redo[i].0;
            let forward = redo[i].1.forward.copied();
            let backward = redo[i].1.backward.copied();
            self.state.update(redo[i].1.forward.copied());
            let ghost before = self.pending();
            self.unconfirmed_updates.push((id, ReversibleUpdate { forward, backward }));
            proof {
                assert(self.pending() =~= before.push(redo_m[i as int]));
                assert(redo_m.take(i + 1) =~= redo_m.take(i as int).push(redo_m[i as int]));
                assert(redo_m.take(i + 1).drop_last() =~= redo_m.take(i as int));
            }
            i = i + 1;
        }
        assert(redo_m.take(i as int) =~= redo_m);
        self.base = Ghost(applied);
        proof {
            assert(redo_m =~= start_pending.subrange(cut_at as int, start_pending.len() as int));
            assert forall|i: int| 0 <= i < self.pending().len() implies same_places(
                #[trigger] self.pending()[i],
            ) by {
                assert(self.pending()[i] == start_pending[cut_at + i]);
            }
            assert forall|i: int, j: int|
                0 <= i < j < self.pending().len() implies self.pending()[i].0 < self.pending()[j].0 by {
                assert(self.pending()[i] == start_pending[cut_at + i]);
                assert(self.pending()[j] == start_pending[cut_at + j]);
            }
            assert forall|i: int| 0 <= i < self.pending().len() implies #[trigger] self.pending()[i].0
                < self.next_update_id by {
                assert(self.pending()[i] == start_pending[cut_at + i]);
            }
            if ack is Some {
                lemma_ack_cut_found(start_pending, ack->0);
                assert(start_pending[cut_at - 1].0 == ack->0);
                assert forall|i: int| 0 <= i < self.pending().len() implies #[trigger] self.pending()[i].0
                    > ack->0 by {
                    assert(self.pending()[i] == start_pending[cut_at + i]);
                    assert(start_pending[cut_at - 1].0 < start_pending[cut_at + i].0);
                }
                assert forall|j: int| 0 <= j < cut_at implies #[trigger] start_pending[j].0 <= ack->0 by {
                    if j < cut_at - 1 {
                        assert(start_pending[j].0 < start_pending[cut_at - 1].0);
                    }
                }
            }
            assert(self.pending() =~= start_pending.skip(cut_at as int));
            if forall|q: Point| #[trigger] pend_touches(start_pending.take(cut_at as int), q)
                ==> msgs_touch(messages@, q) {
                lemma_reconcile(old(self).base(), start_pending, messages@, cut_at as int);
            }
            if messages@.len() == 0 {
                assert(max_ack(messages@) is None);
                assert(redo_m =~= start_pending);
                lemma_redo_undo(old(self).base(), start_pending);
            }
        }
        Ok(())
    }
}

} // verus!
