use vstd::prelude::*;
use std::collections::VecDeque;

verus! {

/// The order in which the core sent values to its ports.
#[derive(Debug, Clone, Copy, PartialEq, Eq, Structural, PartialOrd, Ord)]
pub struct TransactionId(pub usize);

/// The core's side of its memory-mapped ports: which ports have a device,
/// the last value each device sent, the next transaction id, and the values
/// sent to devices and not yet handed over.
#[verifier::ext_equal]
pub struct MmioModel {
    pub attached: Seq<bool>,
    pub port_data: Seq<u32>,
    pub next_tid: nat,
    pub outbox: Seq<(usize, u32, usize)>,
}

/// `port_data` after the core received `incoming` (port, value) packets in
/// order: each port keeps the last value it received.
pub open spec fn deliver(port_data: Seq<u32>, incoming: Seq<(usize, u32)>) -> Seq<u32>
    decreases incoming.len(),
{
    if incoming.len() == 0 {
        port_data
    } else {
        deliver(port_data, incoming.drop_last()).update(
            incoming.last().0 as int,
            incoming.last().1,
        )
    }
}

/// Every port with no packet in `incoming` keeps its value; every other port
/// holds the value of its last packet.
pub proof fn lemma_deliver(port_data: Seq<u32>, incoming: Seq<(usize, u32)>, p: int)
    requires
        forall|k: int| 0 <= k < incoming.len() ==> (#[trigger] incoming[k]).0 < port_data.len(),
        0 <= p < port_data.len(),
    ensures
        deliver(port_data, incoming).len() == port_data.len(),
        (forall|k: int| 0 <= k < incoming.len() ==> (#[trigger] incoming[k]).0 != p) ==> deliver(
            port_data,
            incoming,
        )[p] == port_data[p],
        forall|k: int|
            0 <= k < incoming.len() && incoming[k].0 == p && (forall|j: int|
                k < j < incoming.len() ==> (#[trigger] incoming[j]).0 != p) ==> deliver(
                port_data,
                incoming,
            )[p] == #[trigger] incoming[k].1,
    decreases incoming.len(),
{
    if incoming.len() > 0 {
        let init = incoming.drop_last();
        assert forall|k: int| 0 <= k < init.len() implies (#[trigger] init[k]).0 < port_data.len() by {
            assert(init[k] == incoming[k]);
        }
        lemma_deliver(port_data, init, p);
        assert forall|k: int|
            0 <= k < incoming.len() && incoming[k].0 == p && (forall|j: int|
                k < j < incoming.len() ==> (#[trigger] incoming[j]).0 != p) implies deliver(
            port_data,
            incoming,
        )[p] == #[trigger] incoming[k].1 by {
            if k < incoming.len() - 1 {
                assert(incoming[incoming.len() - 1].0 != p);
                assert(init[k] == incoming[k]);
                assert forall|j: int| k < j < init.len() implies (#[trigger] init[j]).0 != p by {
                    assert(init[j] == incoming[j]);
                }
            }
        }
        if forall|k: int| 0 <= k < incoming.len() ==> (#[trigger] incoming[k]).0 != p {
            assert(incoming[incoming.len() - 1].0 != p);
            assert forall|k: int| 0 <= k < init.len() implies (#[trigger] init[k]).0 != p by {
                assert(init[k] == incoming[k]);
            }
        }
    }
}

impl MmioModel {
    /// The values sent so far carry increasing transaction ids, all below the
    /// next one.
    pub open spec fn sent_in_order(self) -> bool {
        &&& forall|i: int, j: int|
            0 <= i < j < self.outbox.len() ==> (#[trigger] self.outbox[i]).2 < (#[trigger] self.outbox[j]).2
        &&& forall|i: int| 0 <= i < self.outbox.len() ==> (#[trigger] self.outbox[i]).2 < self.next_tid
    }

    /// A store keeps the values sent in order, and a store to a port with no
    /// device sends nothing.
    pub proof fn lemma_store_in_order(self, idx: usize, val: u32)
        requires
            self.sent_in_order(),
            self.can_store(idx),
        ensures
            self.store(idx, val).sent_in_order(),
            !self.attached[idx as int] ==> self.store(idx, val) == self,
            self.attached[idx as int] ==> self.store(idx, val).outbox.last() == (
                idx,
                val,
                self.next_tid as usize,
            ),
    {
    }

    pub open spec fn wf(self) -> bool {
        self.attached.len() == self.port_data.len()
    }

    /// A store of `val` to port `idx`: sent to the device, under the next
    /// transaction id, where one is attached; dropped otherwise.
    pub open spec fn store(self, idx: usize, val: u32) -> MmioModel {
        if self.attached[idx as int] {
            MmioModel {
                next_tid: self.next_tid + 1,
                outbox: self.outbox.push((idx, val, self.next_tid as usize)),
                ..self
            }
        } else {
            self
        }
    }

    /// A store to port `idx` can be made without the transaction counter
    /// overflowing.
    pub open spec fn can_store(self, idx: usize) -> bool {
        &&& idx < self.port_data.len()
        &&& self.attached[idx as int] ==> self.next_tid < usize::MAX
    }
}

/// The state after stores of the (port, value) pairs in `ops`, in order.
pub open spec fn store_all(m: MmioModel, ops: Seq<(usize, u32)>) -> MmioModel
    decreases ops.len(),
{
    if ops.len() == 0 {
        m
    } else {
        store_all(m, ops.drop_last()).store(ops.last().0, ops.last().1)
    }
}

/// The stores in `ops` that go to a port with a device, in order.
pub open spec fn attached_ops(attached: Seq<bool>, ops: Seq<(usize, u32)>) -> Seq<(usize, u32)>
    decreases ops.len(),
{
    if ops.len() == 0 {
        Seq::empty()
    } else if attached[ops.last().0 as int] {
        attached_ops(attached, ops.drop_last()).push(ops.last())
    } else {
        attached_ops(attached, ops.drop_last())
    }
}

/// Stores send, in call order, exactly the values for ports with a device,
/// under consecutive transaction ids from the next one, whatever ports they
/// go to; the rest are dropped.
pub proof fn lemma_consecutive_ids(m: MmioModel, ops: Seq<(usize, u32)>)
    ensures
        store_all(m, ops).attached == m.attached,
        store_all(m, ops).port_data == m.port_data,
        store_all(m, ops).next_tid == m.next_tid + attached_ops(m.attached, ops).len(),
        store_all(m, ops).outbox.len() == m.outbox.len() + attached_ops(m.attached, ops).len(),
        forall|i: int| 0 <= i < m.outbox.len() ==> #[trigger] store_all(m, ops).outbox[i] == m.outbox[i],
        forall|i: int|
            0 <= i < attached_ops(m.attached, ops).len() ==> #[trigger] store_all(m, ops).outbox[m.outbox.len()
                + i] == (
                attached_ops(m.attached, ops)[i].0,
                attached_ops(m.attached, ops)[i].1,
                (m.next_tid + i) as usize,
            ),
    decreases ops.len(),
{
    if ops.len() > 0 {
        lemma_consecutive_ids(m, ops.drop_last());
        let r = store_all(m, ops.drop_last());
        let sent = attached_ops(m.attached, ops.drop_last());
        if attached_ops(m.attached, ops).len() > sent.len() {
            let all = attached_ops(m.attached, ops);
            assert(all == sent.push(ops.last()));
            assert forall|i: int| 0 <= i < all.len() implies #[trigger] store_all(m, ops).outbox[
                m.outbox.len() + i] == (all[i].0, all[i].1, (m.next_tid + i) as usize) by {
                if i < sent.len() {
                    assert(store_all(m, ops).outbox[m.outbox.len() + i] == r.outbox[m.outbox.len()
                        + i]);
                }
            }
            assert forall|i: int| 0 <= i < m.outbox.len() implies #[trigger] store_all(m, ops).outbox[i]
                == m.outbox[i] by {
                assert(store_all(m, ops).outbox[i] == r.outbox[i]);
            }
        }
    }
}

/// The memory-mapped ports of the core.
pub struct Mmio {
    ports: Vec<bool>,
    port_data: Vec<u32>,
    next_tid: TransactionId,
    outbox: Vec<(usize, u32, TransactionId)>,
}

impl View for Mmio {
    type V = MmioModel;

    closed spec fn view(&self) -> MmioModel {
        MmioModel {
            attached: self.ports@,
            port_data: self.port_data@,
            next_tid: self.next_tid.0 as nat,
            outbox: self.outbox@.map_values(|p: (usize, u32, TransactionId)| (p.0, p.1, p.2.0)),
        }
    }
}

impl Mmio {
    pub proof fn lemma_tid_fits(&self)
        ensures
            self@.next_tid <= usize::MAX,
    {
    }

    /// `num_ports` ports, none attached, all reading zero.
    pub fn new(num_ports: usize) -> (m: Mmio)
        ensures
            m@ == (MmioModel {
                attached: Seq::new(num_ports as nat, |i: int| false),
                port_data: Seq::new(num_ports as nat, |i: int| 0u32),
                next_tid: 0,
                outbox: Seq::empty(),
            }),
            m@.wf(),
    {
        let mut ports: Vec<bool> = Vec::new();
        let mut port_data: Vec<u32> = Vec::new();
        let mut i: usize = 0;
        while i < num_ports
            invariant
                i <= num_ports,
                ports@ =~= Seq::new(i as nat, |k: int| false),
                port_data@ =~= Seq::new(i as nat, |k: int| 0u32),
            decreases num_ports - i,
        {
            ports.push(false);
            port_data.push(0);
            i = i + 1;
        }
        let m = Mmio { ports, port_data, next_tid: TransactionId(0), outbox: Vec::new() };
        assert(m@.outbox =~= Seq::empty());
        m
    }

    /// Attaches a device to port `idx`.
    pub fn attach_port(&mut self, idx: usize)
        requires
            old(self)@.wf(),
            idx < old(self)@.port_data.len(),
        ensures
            final(self)@ == (MmioModel {
                attached: old(self)@.attached.update(idx as int, true),
                ..old(self)@
            }),
            final(self)@.wf(),
    {
        self.ports.set(idx, true);
    }

    /// Takes in the (port, value) packets that devices sent, in order; each
    /// must come from a port with a device.
    pub fn update_ports(&mut self, incoming: &Vec<(usize, u32)>)
        requires
            old(self)@.wf(),
            forall|k: int|
                0 <= k < incoming@.len() ==> (#[trigger] incoming@[k]).0 < old(
                    self,
                )@.port_data.len() && old(self)@.attached[incoming@[k].0 as int],
        ensures
            final(self)@ == (MmioModel {
                port_data: deliver(old(self)@.port_data, incoming@),
                ..old(self)@
            }),
            final(self)@.wf(),
    {
        let mut k: usize = 0;
        while k < incoming.len()
            invariant
                k <= incoming@.len(),
                self.ports@ == old(self).ports@,
                self.next_tid == old(self).next_tid,
                self.outbox@ == old(self).outbox@,
                self.port_data@ == deliver(old(self)@.port_data, incoming@.take(k as int)),
                self.port_data@.len() == old(self)@.port_data.len(),
                forall|j: int|
                    0 <= j < incoming@.len() ==> (#[trigger] incoming@[j]).0 < old(
                        self,
                    )@.port_data.len(),
            decreases incoming@.len() - k,
        {
            let (idx, val) = incoming[k];
            self.port_data.set(idx, val);
            proof {
                let t = incoming@.take(k + 1);
                assert(t.drop_last() =~= incoming@.take(k as int));
                assert(t.last() == incoming@[k as int]);
            }
            k = k + 1;
        }
        assert(incoming@.take(incoming@.len() as int) =~= incoming@);
    }

    /// The value last received on port `idx`.
    pub fn load(&mut self, idx: usize) -> (v: u32)
        requires
            idx < old(self)@.port_data.len(),
        ensures
            v == old(self)@.port_data[idx as int],
            final(self)@ == old(self)@,
    {
        self.port_data[idx]
    }

    /// Sends `val` to the device on port `idx`, if one is attached.
    pub fn store(&mut self, idx: usize, val: u32)
        requires
            old(self)@.wf(),
            old(self)@.can_store(idx),
        ensures
            final(self)@ == old(self)@.store(idx, val),
            final(self)@.wf(),
    {
        if self.ports[idx] {
            let tid = self.next_tid;
            self.outbox.push((idx, val, tid));
            self.next_tid = TransactionId(self.next_tid.0 + 1);
            assert(self@.outbox =~= old(self)@.outbox.push((idx, val, tid.0)));
        }
    }

    /// Hands over the values sent to devices since the last call, oldest
    /// first, as (port, value, transaction id).
    pub fn take_sent(&mut self) -> (sent: Vec<(usize, u32, TransactionId)>)
        ensures
            sent@.map_values(|p: (usize, u32, TransactionId)| (p.0, p.1, p.2.0)) == old(
                self,
            )@.outbox,
            final(self)@ == (MmioModel { outbox: Seq::empty(), ..old(self)@ }),
    {
        let mut sent: Vec<(usize, u32, TransactionId)> = Vec::new();
        std::mem::swap(&mut sent, &mut self.outbox);
        assert(self@.outbox =~= Seq::empty());
        sent
    }

    pub fn num_ports(&self) -> (n: usize)
        ensures
            n == self@.port_data.len(),
    {
        self.port_data.len()
    }

    pub fn is_attached(&self, idx: usize) -> (a: bool)
        requires
            idx < self@.attached.len(),
        ensures
            a == self@.attached[idx as int],
    {
        self.ports[idx]
    }

    pub fn next_tid(&self) -> (t: TransactionId)
        ensures
            t.0 == self@.next_tid,
    {
        self.next_tid
    }
}

/// A display of 32-pixel-high columns: each packet on the data port gives a
/// column pattern, each packet on the column port shows the latest pattern
/// sent before it in the column it names.
#[verifier::ext_equal]
pub struct DisplayModel {
    pub cur_data: u32,
    pub queue: Seq<(u32, usize)>,
    pub columns: Seq<u32>,
}

impl DisplayModel {
    /// The queue with the new data packets behind it.
    pub open spec fn pending(self, data: Seq<(u32, usize)>) -> Seq<(u32, usize)> {
        self.queue + data
    }

    /// An update terminates and stays in bounds: when a column packet comes,
    /// every pending data packet precedes it, and every column named exists.
    pub open spec fn can_update(self, data: Seq<(u32, usize)>, submits: Seq<(u32, usize)>) -> bool {
        submits.len() > 0 ==> {
            &&& forall|i: int|
                0 <= i < self.pending(data).len() ==> (#[trigger] self.pending(data)[i]).1
                    < submits[0].1
            &&& forall|k: int| 0 <= k < submits.len() ==> (#[trigger] submits[k]).0 < self.columns.len()
        }
    }

    /// One update with the given data and column packets, each in the order
    /// sent: the display afterwards, and whether a column changed.
    pub open spec fn update(self, data: Seq<(u32, usize)>, submits: Seq<(u32, usize)>) -> (
        DisplayModel,
        bool,
    ) {
        let q = self.pending(data);
        if submits.len() == 0 {
            (DisplayModel { queue: q, ..self }, false)
        } else {
            let cur = if q.len() > 0 {
                q.last().0
            } else {
                self.cur_data
            };
            let cols = Seq::new(
                self.columns.len(),
                |c: int|
                    if exists|k: int| 0 <= k < submits.len() && #[trigger] submits[k].0 == c {
                        cur
                    } else {
                        self.columns[c]
                    },
            );
            (DisplayModel { cur_data: cur, queue: Seq::empty(), columns: cols }, cols != self.columns)
        }
    }

    /// The first column packet would wait forever: a pending data packet
    /// does not precede it.
    pub open spec fn stalls(self, data: Seq<(u32, usize)>, submits: Seq<(u32, usize)>) -> bool {
        &&& submits.len() > 0
        &&& exists|i: int|
            0 <= i < self.pending(data).len() && (#[trigger] self.pending(data)[i]).1 >= submits[0].1
    }

    /// Some column packet names a column that the display lacks.
    pub open spec fn names_missing_column(self, submits: Seq<(u32, usize)>) -> bool {
        exists|k: int| 0 <= k < submits.len() && (#[trigger] submits[k]).0 >= self.columns.len()
    }

    /// The index of the first column packet that names a missing column.
    pub open spec fn first_missing_column(self, submits: Seq<(u32, usize)>) -> int {
        choose|k: int|
            0 <= k < submits.len() && submits[k].0 >= self.columns.len() && forall|j: int|
                0 <= j < k ==> submits[j].0 < self.columns.len()
    }

    /// How an update with these packets fails, in the order the display
    /// meets the faults: the first column packet waits forever for the
    /// pending data, or the first column packet naming a missing column
    /// fails.
    pub open spec fn fault(self, data: Seq<(u32, usize)>, submits: Seq<(u32, usize)>) -> Option<
        DisplayFault,
    > {
        if self.stalls(data, submits) {
            Some(DisplayFault::Stalled)
        } else if self.names_missing_column(submits) {
            Some(DisplayFault::NoSuchColumn(submits[self.first_missing_column(submits)].0))
        } else {
            None
        }
    }

    /// Whether the pixel in row `row` (0 at the top) of column `col` is lit.
    pub open spec fn pixel(self, row: int, col: int) -> bool {
        (self.columns[col] >> ((31 - row) as u32)) & 1 == 1
    }
}

/// How a display update would fail.
#[derive(Debug, Clone, Copy, PartialEq, Eq, Structural)]
pub enum DisplayFault {
    /// A data packet pending at the first column packet does not precede it.
    Stalled,
    /// A column packet names this column, which the display lacks.
    NoSuchColumn(u32),
}

/// A column display fed by two ports.
pub struct ColumnDisplay {
    cur_data: u32,
    queue: VecDeque<(u32, TransactionId)>,
    columns: Vec<u32>,
}

pub open spec fn packets_view(s: Seq<(u32, TransactionId)>) -> Seq<(u32, usize)> {
    s.map_values(|p: (u32, TransactionId)| (p.0, p.1.0))
}

impl View for ColumnDisplay {
    type V = DisplayModel;

    closed spec fn view(&self) -> DisplayModel {
        DisplayModel {
            cur_data: self.cur_data,
            queue: packets_view(self.queue@),
            columns: self.columns@,
        }
    }
}

impl ColumnDisplay {
    /// `num_columns` dark columns.
    pub fn new(num_columns: u32) -> (d: ColumnDisplay)
        ensures
            d@ == (DisplayModel {
                cur_data: 0,
                queue: Seq::empty(),
                columns: Seq::new(num_columns as nat, |i: int| 0u32),
            }),
    {
        let n = num_columns as usize;
        let mut columns: Vec<u32> = Vec::new();
        let mut i: usize = 0;
        while i < n
            invariant
                i <= n,
                n == num_columns,
                columns@ =~= Seq::new(i as nat, |k: int| 0u32),
            decreases n - i,
        {
            columns.push(0);
            i = i + 1;
        }
        let d = ColumnDisplay { cur_data: 0, queue: VecDeque::new(), columns };
        assert(d@.queue =~= Seq::empty());
        d
    }

    /// Takes in the packets from the data port and from the column port, each
    /// in the order sent, and says whether a column changed.
    pub fn update(
        &mut self,
        data: &Vec<(u32, TransactionId)>,
        submits: &Vec<(u32, TransactionId)>,
    ) -> (changed: bool)
        requires
            old(self)@.can_update(packets_view(data@), packets_view(submits@)),
        ensures
            (final(self)@, changed) == old(self)@.update(packets_view(data@), packets_view(submits@)),
    {
        let ghost d = packets_view(data@);
        let ghost s = packets_view(submits@);
        let mut i: usize = 0;
        while i < data.len()
            invariant
                i <= data@.len(),
                d == packets_view(data@),
                self.cur_data == old(self).cur_data,
                self.columns@ == old(self).columns@,
                packets_view(self.queue@) =~= old(self)@.queue + d.take(i as int),
            decreases data@.len() - i,
        {
            let ghost before = self.queue@;
            self.queue.push_back(data[i]);
            proof {
                assert(packets_view(self.queue@) =~= packets_view(before).push(d[i as int]));
                assert(d.take(i + 1) =~= d.take(i as int).push(d[i as int]));
            }
            i = i + 1;
        }
        assert(d.take(data@.len() as int) =~= d);
        let ghost q = packets_view(self.queue@);
        let ghost cur = if q.len() > 0 {
            q.last().0
        } else {
            self.cur_data
        };
        let mut changed = false;
        let mut k: usize = 0;
        while k < submits.len()
            invariant
                k <= submits@.len(),
                s == packets_view(submits@),
                q == old(self)@.pending(d),
                old(self)@.can_update(d, s),
                self.columns@.len() == old(self).columns@.len(),
                k == 0 ==> packets_view(self.queue@) == q && self.cur_data == old(self).cur_data
                    && self.columns@ == old(self).columns@ && !changed,
                k > 0 ==> self.queue@.len() == 0 && self.cur_data == cur,
                cur == (if q.len() > 0 {
                    q.last().0
                } else {
                    old(self).cur_data
                }),
                forall|c: int|
                    0 <= c < self.columns@.len() ==> #[trigger] self.columns@[c] == if exists|j: int|
                        0 <= j < k && #[trigger] s[j].0 == c {
                        cur
                    } else {
                        old(self).columns@[c]
                    },
                changed == exists|j: int|
                    0 <= j < k && old(self).columns@[#[trigger] s[j].0 as int] != cur,
            decreases submits@.len() - k,
        {
            let (col, submit_id) = submits[k];
            assert(s[k as int] == (col, submit_id.0));
            proof {
                if k == 0 {
                    assert forall|j: int| 0 <= j < self.queue@.len() implies (#[trigger] self.queue@[j]).1.0
                        < submit_id.0 by {
                        assert(packets_view(self.queue@)[j] == q[j]);
                        assert(q[j].1 < s[0].1);
                    }
                    if q.len() > 0 {
                        assert(packets_view(self.queue@).last() == q.last());
                    }
                }
            }
            self.take_pending_before(submit_id.0);
            let c = col as usize;
            if self.columns[c] != self.cur_data {
                self.columns.set(c, self.cur_data);
                changed = true;
            }
            k = k + 1;
        }
        proof {
            if s.len() > 0 {
                let cols = self.columns@;
                if changed {
                    let j = choose|j: int|
                        0 <= j < k && old(self).columns@[#[trigger] s[j].0 as int] != cur;
                    assert(cols[s[j].0 as int] == cur);
                    assert(cols != old(self).columns@);
                } else {
                    assert forall|c: int| 0 <= c < cols.len() implies cols[c] == old(
                        self,
                    ).columns@[c] by {
                        if exists|j: int| 0 <= j < k && #[trigger] s[j].0 == c {
                            let j = choose|j: int| 0 <= j < k && #[trigger] s[j].0 == c;
                            assert(old(self).columns@[s[j].0 as int] == cur);
                        }
                    }
                    assert(cols =~= old(self).columns@);
                }
                assert(self@.queue =~= Seq::empty());
                assert(self@.columns =~= old(self)@.update(d, s).0.columns);
            } else {
                assert(self@.queue =~= q);
            }
        }
        changed
    }

    /// Pops every queued data packet (each precedes `submit_id`), keeping the
    /// last one's pattern as the current one.
    fn take_pending_before(&mut self, submit_id: usize)
        requires
            forall|j: int| 0 <= j < old(self).queue@.len() ==> (#[trigger] old(self).queue@[j]).1.0 < submit_id,
        ensures
            final(self).queue@.len() == 0,
            final(self).columns@ == old(self).columns@,
            final(self).cur_data == if old(self).queue@.len() > 0 {
                old(self).queue@.last().0
            } else {
                old(self).cur_data
            },
    {
        while self.queue.len() > 0 && self.queue[0].1.0 < submit_id
            invariant
                forall|j: int| 0 <= j < self.queue@.len() ==> (#[trigger] self.queue@[j]).1.0 < submit_id,
                self.columns@ == old(self).columns@,
                self.queue@.len() > 0 ==> old(self).queue@.len() > 0 && self.queue@.last() == old(self).queue@.last(),
                self.queue@.len() == 0 ==> self.cur_data == if old(self).queue@.len() > 0 {
                    old(self).queue@.last().0
                } else {
                    old(self).cur_data
                },
            decreases self.queue@.len(),
        {
            let ghost before = self.queue@;
            let p = self.queue.pop_front().unwrap();
            self.cur_data = p.0;
            proof {
                if self.queue@.len() > 0 {
                    assert(self.queue@.last() == before.last());
                } else {
                    assert(before.len() == 1);
                    assert(p == before.last());
                }
            }
        }
        if self.queue.len() > 0 {
            assert(self.queue@[0].1.0 < submit_id);
        }
    }

    /// The pixels, top row first: row `r` holds bit `31 - r` of each column.
    pub fn pixel_rows(&self) -> (rows: Vec<Vec<bool>>)
        ensures
            rows@.len() == 32,
            forall|r: int|
                0 <= r < 32 ==> (#[trigger] rows@[r])@.len() == self@.columns.len() && forall|c: int|
                    0 <= c < self@.columns.len() ==> (#[trigger] rows@[r]@[c]) == self@.pixel(r, c),
    {
        let mut rows: Vec<Vec<bool>> = Vec::new();
        let mut row: u32 = 32;
        while row > 0
            invariant
                row <= 32,
                rows@.len() == 32 - row,
                forall|r: int|
                    0 <= r < rows@.len() ==> (#[trigger] rows@[r])@.len() == self@.columns.len()
                        && forall|c: int|
                        0 <= c < self@.columns.len() ==> (#[trigger] rows@[r]@[c]) == self@.pixel(
                            r,
                            c,
                        ),
            decreases row,
        {
            row = row - 1;
            let mut line: Vec<bool> = Vec::new();
            let mut c: usize = 0;
            while c < self.columns.len()
                invariant
                    row < 32,
                    c <= self.columns@.len(),
                    line@.len() == c,
                    rows@.len() == 31 - row,
                    forall|j: int|
                        0 <= j < c ==> (#[trigger] line@[j]) == self@.pixel(31 - row, j),
                decreases self.columns@.len() - c,
            {
                let col = self.columns[c];
                line.push((col >> row) & 1 != 0);
                proof {
                    assert(((31 - (31 - row)) as u32) == row);
                    assert(((col >> row) & 1 != 0) == ((col >> row) & 1 == 1)) by (bit_vector);
                }
                c = c + 1;
            }
            rows.push(line);
        }
        rows
    }

    /// Whether `update` may take these packets, and if not, how the display
    /// would fail: it would wait forever for a data packet to precede the
    /// first column packet, or it is told to show a column it lacks.
    pub fn update_fault(
        &self,
        data: &Vec<(u32, TransactionId)>,
        submits: &Vec<(u32, TransactionId)>,
    ) -> (f: Option<DisplayFault>)
        ensures
            f == self@.fault(packets_view(data@), packets_view(submits@)),
            f is None <==> self@.can_update(packets_view(data@), packets_view(submits@)),
    {
        if submits.len() == 0 {
            return None;
        }
        let first = submits[0].1.0;
        let ghost d = packets_view(data@);
        let ghost q = self@.pending(d);
        let mut i: usize = 0;
        while i < self.queue.len()
            invariant
                i <= self.queue@.len(),
                d == packets_view(data@),
                q == self@.pending(d),
                submits@.len() > 0,
                first == submits@[0].1.0,
                forall|j: int| 0 <= j < i ==> (#[trigger] self.queue@[j]).1.0 < first,
            decreases self.queue@.len() - i,
        {
            if self.queue[i].1.0 >= first {
                assert(q[i as int] == (self.queue@[i as int].0, self.queue@[i as int].1.0));
                assert(packets_view(submits@)[0].1 == first);
                assert(self@.stalls(d, packets_view(submits@)));
                return Some(DisplayFault::Stalled);
            }
            i = i + 1;
        }
        let mut j: usize = 0;
        while j < data.len()
            invariant
                j <= data@.len(),
                d == packets_view(data@),
                q == self@.pending(d),
                submits@.len() > 0,
                first == submits@[0].1.0,
                forall|k: int| 0 <= k < j ==> (#[trigger] data@[k]).1.0 < first,
            decreases data@.len() - j,
        {
            if data[j].1.0 >= first {
                assert(q[self.queue@.len() + j] == (data@[j as int].0, data@[j as int].1.0));
                assert(packets_view(submits@)[0].1 == first);
                assert(self@.stalls(d, packets_view(submits@)));
                return Some(DisplayFault::Stalled);
            }
            j = j + 1;
        }
        assert forall|k: int| 0 <= k < q.len() implies (#[trigger] q[k]).1 < packets_view(
            submits@,
        )[0].1 by {
            if k < self.queue@.len() {
                assert(q[k] == (self.queue@[k].0, self.queue@[k].1.0));
            } else {
                assert(q[k] == (data@[k - self.queue@.len()].0, data@[k - self.queue@.len()].1.0));
            }
        }
        assert(!self@.stalls(d, packets_view(submits@)));
        assert(!self@.stalls(d, packets_view(submits@)));
        let mut k: usize = 0;
        while k < submits.len()
            invariant
                k <= submits@.len(),
                d == packets_view(data@),
                !self@.stalls(d, packets_view(submits@)),
                d == packets_view(data@),
                !self@.stalls(d, packets_view(submits@)),
                forall|m: int|
                    0 <= m < k ==> ((#[trigger] submits@[m]).0 as int) < self.columns@.len(),
            decreases submits@.len() - k,
        {
            if submits[k].0 as usize >= self.columns.len() {
                proof {
                    let sv = packets_view(submits@);
                    assert(sv[k as int].0 == submits@[k as int].0);
                    assert(!self@.stalls(d, sv));
                    assert(self@.names_missing_column(sv));
                    assert forall|j: int| 0 <= j < k implies sv[j].0 < self@.columns.len() by {
                        assert(sv[j].0 == submits@[j].0);
                    }
                    let f = self@.first_missing_column(sv);
                    assert(0 <= f < sv.len() && sv[f].0 >= self@.columns.len() && forall|j: int|
                        0 <= j < f ==> sv[j].0 < self@.columns.len());
                    if f < k {
                        assert(sv[f].0 == submits@[f].0);
                    }
                    if k < f {
                        assert(sv[k as int].0 < self@.columns.len());
                    }
                    assert(f == k);
                }
                return Some(DisplayFault::NoSuchColumn(submits[k].0));
            }
            k = k + 1;
        }
        assert forall|m: int| 0 <= m < submits@.len() implies (#[trigger] packets_view(submits@)[m]).0
            < self@.columns.len() by {
            assert(packets_view(submits@)[m].0 == submits@[m].0);
        }
        assert(!self@.stalls(d, packets_view(submits@)));
        None
    }

    pub fn num_columns(&self) -> (n: usize)
        ensures
            n == self@.columns.len(),
    {
        self.columns.len()
    }
}

} // verus!
