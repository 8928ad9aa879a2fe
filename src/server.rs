use vstd::prelude::*;
use crate::geom::{Point, Aabb};
use crate::matrix::Matrix;
use crate::canvas::{Rgba, Pixel, UpdateId, ClientMessage, ServerMessage, transparent, draw};
use crate::chunks::{Infinite, StoreError, cell_key, chunk_pixel};

verus! {

/// Identity that the server gives to each connection.
pub type ClientId = u64;

/// The server's side of the protocol: the connected clients, in order of connection,
/// and the chunk store. Every message is handled to the end, its replies formed and
/// the store changed, before the next one; the caller sends the replies in order.
pub struct ServerState {
    next_client_id: ClientId,
    clients: Vec<ClientId>,
    store: Infinite,
}

/// Whether `area` is a download that the server answers: a well-formed rectangle
/// whose snapshot can be held in memory.
pub open spec fn download_ok(area: Aabb) -> bool {
    area.wf() && area.width() * area.height() <= usize::MAX
}

/// Whether the server answers a download of `area`.
pub fn accepts_download(area: Aabb) -> (r: bool)
    ensures
        r == download_ok(area),
{
    if area.x_min > area.x_max || area.y_min > area.y_max {
        return false;
    }
    let w = (area.x_max as i64 - area.x_min as i64) as u128;
    let h = (area.y_max as i64 - area.y_min as i64) as u128;
    assert(w * h <= u128::MAX) by (nonlinear_arith)
        requires
            w <= 0x1_0000_0000,
            h <= 0x1_0000_0000,
    ;
    w * h <= usize::MAX as u128
}

/// The broadcast of an edit with id `id` from `from`, to each client of `clients`.
pub open spec fn is_broadcast(
    out: Seq<(ClientId, ServerMessage)>,
    clients: Seq<ClientId>,
    from: ClientId,
    id: UpdateId,
    px: Seq<Pixel>,
) -> bool {
    &&& out.len() == clients.len()
    &&& forall|i: int|
        0 <= i < out.len() ==> {
            &&& (#[trigger] out[i]).0 == clients[i]
            &&& match out[i].1 {
                ServerMessage::Update { your_id, update } => {
                    &&& your_id == if clients[i] == from {
                        Some(id)
                    } else {
                        None::<UpdateId>
                    }
                    &&& update.pixels() == px
                },
                _ => false,
            }
        }
}

impl ServerState {
    pub closed spec fn clients(&self) -> Seq<ClientId> {
        self.clients@
    }

    pub closed spec fn next_id(&self) -> ClientId {
        self.next_client_id
    }

    pub closed spec fn spec_store(&self) -> Infinite {
        self.store
    }

    pub open spec fn wf(&self) -> bool {
        &&& self.spec_store().wf()
        &&& self.clients().no_duplicates()
        &&& forall|i: int| 0 <= i < self.clients().len() ==> #[trigger] self.clients()[i] < self.next_id()
    }

    /// Whether the chunks that `message` touches are ready: in memory for an edit,
    /// readable for a download.
    pub open spec fn ready_for(&self, message: ClientMessage) -> bool {
        match message {
            ClientMessage::Update { update, .. } => forall|i: int|
                0 <= i < update.pixels().len() ==> self.spec_store().resident(
                    self.spec_store().cell(#[trigger] update.pixels()[i].position),
                ),
            ClientMessage::Download { area } => download_ok(area) ==> forall|p: Point|
                area.contains(p) ==> #[trigger] self.spec_store().readable(
                    self.spec_store().cell(p),
                ),
        }
    }

    /// No client connected, and a store with chunks of edge `chunk_size`.
    pub fn new(chunk_size: i32) -> (r: ServerState)
        requires
            0 < chunk_size,
            chunk_size * chunk_size <= usize::MAX,
        ensures
            r.wf(),
            r.clients() == Seq::<ClientId>::empty(),
            r.next_id() == 0,
            r.spec_store().size() == chunk_size,
            forall|p: Point| #[trigger] r.spec_store()@[p] == transparent(),
    {
        ServerState { next_client_id: 0, clients: Vec::new(), store: Infinite::new(chunk_size) }
    }

    pub fn store(&self) -> (r: &Infinite)
        ensures
            *r == self.spec_store(),
    {
        &self.store
    }

    /// Registers a new connection under a fresh id, or gives `None` once every id has
    /// been given out.
    pub fn connect(&mut self) -> (r: Option<ClientId>)
        requires
            old(self).wf(),
        ensures
            final(self).wf(),
            r is Some ==> !old(self).clients().contains(r->0),
            final(self).spec_store() == old(self).spec_store(),
            r is None <==> old(self).next_id() == u64::MAX,
            r is None ==> *final(self) == *old(self),
            r is Some ==> {
                &&& r->0 == old(self).next_id()
                &&& final(self).next_id() == old(self).next_id() + 1
                &&& final(self).clients() == old(self).clients().push(r->0)
            },
    {
        if self.next_client_id == u64::MAX {
            return None;
        }
        let id = self.next_client_id;
        self.next_client_id = id + 1;
        let ghost before = self.clients@;
        self.clients.push(id);
        proof {
            assert(self.clients@ =~= before.push(id));
            assert forall|i: int, j: int|
                0 <= i < self.clients@.len() && 0 <= j < self.clients@.len() && i != j implies self.clients@[i]
                != self.clients@[j] by {
                if i < before.len() && j < before.len() {
                    assert(before[i] != before[j]);
                } else if i < before.len() {
                    assert(before[i] < id);
                } else if j < before.len() {
                    assert(before[j] < id);
                }
            }
        }
        Some(id)
    }

    /// Forgets the connection `id`.
    pub fn disconnect(&mut self, id: ClientId)
        requires
            old(self).wf(),
        ensures
            final(self).wf(),
            final(self).spec_store() == old(self).spec_store(),
            final(self).next_id() == old(self).next_id(),
            final(self).clients() == old(self).clients().filter(|c: ClientId| c != id),
    {
        let mut kept: Vec<ClientId> = Vec::new();
        let mut i: usize = 0;
        while i < self.clients.len()
            invariant
                i <= self.clients@.len(),
                kept@ == self.clients@.take(i as int).filter(|c: ClientId| c != id),
                self.clients@.no_duplicates(),
                kept@.no_duplicates(),
                forall|m: int| #![trigger kept@[m]] 0 <= m < kept@.len() ==> exists|j: int| 0 <= j < i && #[trigger] self.clients@[j] == kept@[m],
                forall|m: int| 0 <= m < kept@.len() ==> #[trigger] kept@[m] < self.next_client_id,
                forall|m: int| 0 <= m < self.clients@.len() ==> #[trigger] self.clients@[m] < self.next_client_id,
            decreases self.clients@.len() - i,
        {
            let c = self.clients[i];
            proof {
                reveal_with_fuel(Seq::filter, 1);
                assert(self.clients@.take(i + 1).drop_last() =~= self.clients@.take(i as int));
            }
            if c != id {
                let ghost before = kept@;
                kept.push(c);
                proof {
                    assert forall|a: int, b: int|
                        0 <= a < kept@.len() && 0 <= b < kept@.len() && a != b implies kept@[a] != kept@[b] by {
                        if a < before.len() && b < before.len() {
                        } else if a < before.len() {
                            let j = choose|j: int| 0 <= j < i && self.clients@[j] == before[a];
                        } else if b < before.len() {
                            let j = choose|j: int| 0 <= j < i && self.clients@[j] == before[b];
                        }
                    }
                    assert forall|m: int| #![trigger kept@[m]] 0 <= m < kept@.len() implies exists|j: int| 0 <= j < i + 1 && #[trigger] self.clients@[j] == kept@[m] by {
                        if m < before.len() {
                            let j = choose|j: int| 0 <= j < i && self.clients@[j] == before[m];
                            assert(self.clients@[j] == kept@[m]);
                        } else {
                            assert(self.clients@[i as int] == kept@[m]);
                        }
                    }
                }
            }
            i = i + 1;
        }
        assert(self.clients@.take(i as int) =~= self.clients@);
        self.clients = kept;
    }

    /// Loads the chunk at chunk coordinates `c` into the store, see [`Infinite::provide`].
    pub fn provide(&mut self, c: Point, stored: Option<Matrix<Rgba>>, now: u64) -> (r: Result<
        (),
        StoreError,
    >)
        requires
            old(self).wf(),
            !old(self).spec_store().resident(c),
            stored is Some ==> stored->0.wf(),
        ensures
            final(self).wf(),
            final(self).clients() == old(self).clients(),
            final(self).next_id() == old(self).next_id(),
            r is Err <==> (stored is Some && !old(self).spec_store().grid_ok(stored->0)),
            r is Ok ==> final(self).spec_store().resident(c),
            r is Ok ==> forall|p: Point| #[trigger]
                final(self).spec_store()@[p] == if old(self).spec_store().cell(p) == c {
                    match stored {
                        Some(m) => chunk_pixel(m, p, old(self).spec_store().size()),
                        None => transparent(),
                    }
                } else {
                    old(self).spec_store()@[p]
                },
            r is Ok ==> forall|c2: Point|
                c2 != c ==> #[trigger] final(self).spec_store().resident(c2) == old(
                    self,
                ).spec_store().resident(c2),
            r is Err ==> *final(self) == *old(self),
    {
        self.store.provide(c, stored, now)
    }

    /// The periodic check of the store, see [`Infinite::periodic_check`].
    pub fn periodic_check(&mut self, now: u64) -> (saves: Vec<(Point, Matrix<Rgba>)>)
        requires
            old(self).wf(),
        ensures
            final(self).wf(),
            forall|k: u64| #[trigger]
                old(self).spec_store().entries().contains_key(k) && ({
                    let e = old(self).spec_store().entries()[k];
                    e.mutated && (e.flush_due(now) || e.idle(now))
                }) ==> exists|i: int| 0 <= i < saves@.len() && cell_key(saves@[i].0) == k,
            final(self).clients() == old(self).clients(),
            final(self).next_id() == old(self).next_id(),
            final(self).spec_store()@ == old(self).spec_store()@,
            forall|i: int|
                0 <= i < saves@.len() ==> old(self).spec_store().entries().contains_key(
                    cell_key(#[trigger] saves@[i].0),
                ) && ({
                    let e = old(self).spec_store().entries()[cell_key(saves@[i].0)];
                    e.mutated && (e.flush_due(now) || e.idle(now))
                }),
            forall|i: int, j: int| 0 <= i < j < saves@.len() ==> saves@[i].0 != saves@[j].0,
            forall|i: int|
                0 <= i < saves@.len() ==> {
                    let k = cell_key(#[trigger] saves@[i].0);
                    &&& final(self).spec_store().entries().contains_key(k)
                    &&& final(self).spec_store().entries()[k].stored is Some
                    &&& saves@[i].1.same_cells(
                        &final(self).spec_store().entries()[k].stored->0,
                    )
                },
    {
        self.store.periodic_check(now)
    }

    /// Lets go of every chunk at `now`, see [`Infinite::flush_all`].
    pub fn flush_all(&mut self, now: u64) -> (saves: Vec<(Point, Matrix<Rgba>)>)
        requires
            old(self).wf(),
        ensures
            final(self).wf(),
            forall|k: u64| #[trigger]
                old(self).spec_store().entries().contains_key(k) && old(
                    self,
                ).spec_store().entries()[k].mutated ==> exists|i: int|
                    0 <= i < saves@.len() && cell_key(saves@[i].0) == k,
            final(self).clients() == old(self).clients(),
            final(self).next_id() == old(self).next_id(),
            final(self).spec_store()@ == old(self).spec_store()@,
            forall|k: u64| #[trigger]
                final(self).spec_store().entries().contains_key(k)
                    ==> final(self).spec_store().entries()[k].stored
                    == old(self).spec_store().entries()[k].content(),
            forall|i: int|
                0 <= i < saves@.len() ==> old(self).spec_store().entries().contains_key(
                    cell_key(#[trigger] saves@[i].0),
                ) && ({
                    let e = old(self).spec_store().entries()[cell_key(saves@[i].0)];
                    e.mutated
                }),
            forall|i: int, j: int| 0 <= i < j < saves@.len() ==> saves@[i].0 != saves@[j].0,
            forall|i: int|
                0 <= i < saves@.len() ==> {
                    let k = cell_key(#[trigger] saves@[i].0);
                    &&& final(self).spec_store().entries().contains_key(k)
                    &&& final(self).spec_store().entries()[k].stored is Some
                    &&& saves@[i].1.same_cells(
                        &final(self).spec_store().entries()[k].stored->0,
                    )
                },
    {
        self.store.flush_all(now)
    }

    /// Handles `message` from client `from` at `now`, and returns the replies to send,
    /// in order, each with the client it goes to.
    ///
    /// An edit is broadcast to every connected client, in order of connection, with
    /// its id for `from` alone, and then painted into the store. A download is
    /// answered to `from` alone with the colors of its area; one with an empty-sided
    /// or too large area gets no answer.
    pub fn handle_message(&mut self, from: ClientId, message: ClientMessage, now: u64) -> (out: Vec<
        (ClientId, ServerMessage),
    >)
        requires
            old(self).wf(),
            old(self).ready_for(message),
        ensures
            final(self).wf(),
            final(self).clients() == old(self).clients(),
            final(self).next_id() == old(self).next_id(),
            forall|c: Point| #[trigger] final(self).spec_store().resident(c) == old(self).spec_store().resident(c),
            forall|c: Point| #[trigger] final(self).spec_store().readable(c) == old(self).spec_store().readable(c),
            match message {
                ClientMessage::Update { id, update } => {
                    &&& is_broadcast(out@, old(self).clients(), from, id, update.pixels())
                    &&& final(self).spec_store()@ == draw(
                        old(self).spec_store()@,
                        update.pixels(),
                    )
                },
                ClientMessage::Download { area } => {
                    &&& final(self).spec_store()@ == old(self).spec_store()@
                    &&& !download_ok(area) ==> out@.len() == 0
                    &&& download_ok(area) ==> {
                        &&& out@.len() == 1
                        &&& out@[0].0 == from
                        &&& match out@[0].1 {
                            ServerMessage::Download { position, data } => {
                                &&& position == area.bottom_left_spec()
                                &&& data.wf()
                                &&& data.rows() == area.width()
                                &&& data.cols() == area.height()
                                &&& forall|i: int, j: int|
                                    0 <= i < area.width() && 0 <= j < area.height()
                                        ==> #[trigger] data.at(i, j) == old(
                                        self,
                                    ).spec_store()@[Point {
                                        x: (area.x_min + i) as i32,
                                        y: (area.y_min + j) as i32,
                                    }]
                            },
                            _ => false,
                        }
                    }
                },
            },
    {
        let mut out: Vec<(ClientId, ServerMessage)> = Vec::new();
        match message {
            ClientMessage::Download { area } => {
                if !accepts_download(area) {
                    return out;
                }
                assert(area.width() * area.height() <= usize::MAX);
                let cells = if area.x_min < area.x_max && area.y_min < area.y_max {
                    self.store.chunks_in(area)
                } else {
                    Vec::new()
                };
                let mut i: usize = 0;
                while i < cells.len()
                    invariant
                        i <= cells@.len(),
                        self.store.wf(),
                        self.store.size() == old(self).store.size(),
                        self.store@ == old(self).store@,
                        forall|c: Point| #[trigger]
                            self.store.readable(c) == old(self).store.readable(c),
                        forall|c: Point| #[trigger]
                            self.store.resident(c) == old(self).store.resident(c),
                        self.clients@ == old(self).clients@,
                        self.next_client_id == old(self).next_client_id,
                    decreases cells@.len() - i,
                {
                    self.store.touch_chunk(cells[i], now);
                    i = i + 1;
                }
                assert forall|p: Point| area.contains(p) implies #[trigger] self.store.readable(
                    self.store.cell(p),
                ) by {
                    assert(old(self).spec_store().readable(old(self).spec_store().cell(p)));
                }
                let data = self.store.get(area);
                out.push((from, ServerMessage::Download { position: area.bottom_left(), data }));
                out
            },
            ClientMessage::Update { id, update } => {
                let ghost px = update.pixels();
                let mut i: usize = 0;
                while i < self.clients.len()
                    invariant
                        i <= self.clients@.len(),
                        px == update.pixels(),
                        out@.len() == i,
                        forall|j: int|
                            0 <= j < i ==> {
                                &&& (#[trigger] out@[j]).0 == self.clients@[j]
                                &&& match out@[j].1 {
                                    ServerMessage::Update { your_id, update } => {
                                        &&& your_id == if self.clients@[j] == from {
                                            Some(id)
                                        } else {
                                            None::<UpdateId>
                                        }
                                        &&& update.pixels() == px
                                    },
                                    _ => false,
                                }
                            },
                    decreases self.clients@.len() - i,
                {
                    let c = self.clients[i];
                    let your_id = if c == from {
                        Some(id)
                    } else {
                        None
                    };
                    let ghost before = out@;
                    out.push((c, ServerMessage::Update { your_id, update: update.copied() }));
                    proof {
                        assert forall|j: int| 0 <= j < i + 1 implies {
                            &&& (#[trigger] out@[j]).0 == self.clients@[j]
                            &&& match out@[j].1 {
                                ServerMessage::Update { your_id, update } => {
                                    &&& your_id == if self.clients@[j] == from {
                                        Some(id)
                                    } else {
                                        None::<UpdateId>
                                    }
                                    &&& update.pixels() == px
                                },
                                _ => false,
                            }
                        } by {
                            if j < i {
                                assert(out@[j] == before[j]);
                            }
                        }
                    }
                    i = i + 1;
                }
                self.store.update(update, now);
                proof {
                    assert forall|c: Point| #[trigger] self.store.readable(c) == old(self).store.readable(c) by {
                        assert(self.store.resident(c) == old(self).store.resident(c));
                    }
                }
                out
            },
        }
    }
}

} // verus!
