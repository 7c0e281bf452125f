//! Generic Receive Offload: coalescing the TCP and UDP packets of one flow,
//! received in one batch, into larger packets described by a virtio header.
use crate::byte_order::{be16_at, be32_at, read_be16, read_be32};
use crate::checksum::{checksum, checksum_spec, lemma_word_sum_bound, pseudo_header_checksum_no_fold, pseudo_header_sum, word_sum};
use crate::gso::{IPV4_SRC_ADDR_OFFSET, IPV6_SRC_ADDR_OFFSET, TCP_FLAGS_OFFSET, TCP_FLAG_PSH};
use crate::virtio::IDEAL_BATCH_SIZE;
use vstd::prelude::*;

verus! {

/// Length of a UDP header.
pub const UDP_H_LEN: usize = 8;

/// The big-endian number that the bytes of `s` spell.
pub open spec fn be_num(s: Seq<u8>) -> nat
    decreases s.len(),
{
    if s.len() == 0 {
        0
    } else {
        be_num(s.drop_last()) * 256 + s.last() as nat
    }
}

/// 256 to the power `k`.
pub open spec fn pow256(k: nat) -> nat
    decreases k,
{
    if k == 0 {
        1
    } else {
        256 * pow256((k - 1) as nat)
    }
}

proof fn lemma_be_num_bound(s: Seq<u8>)
    ensures
        be_num(s) < pow256(s.len()),
    decreases s.len(),
{
    if s.len() > 0 {
        lemma_be_num_bound(s.drop_last());
    }
}

proof fn lemma_pow256_mono(a: nat, b: nat)
    requires
        a <= b,
    ensures
        pow256(a) <= pow256(b),
    decreases b,
{
    if a < b {
        lemma_pow256_mono(a, (b - 1) as nat);
    }
}

/// The number that the address bytes `pkt[from..to]` spell, big-endian.
fn addr_value(pkt: &[u8], from: usize, to: usize) -> (r: u128)
    requires
        from <= to <= pkt@.len(),
        to - from <= 16,
    ensures
        r as nat == be_num(pkt@.subrange(from as int, to as int)),
{
    let mut acc: u128 = 0;
    let mut k = from;
    assert(pow256(16) == 0x1_0000_0000_0000_0000_0000_0000_0000_0000) by {
        reveal_with_fuel(pow256, 17);
    }
    while k < to
        invariant
            from <= k <= to <= pkt@.len(),
            to - from <= 16,
            acc as nat == be_num(pkt@.subrange(from as int, k as int)),
            pow256(16) == 0x1_0000_0000_0000_0000_0000_0000_0000_0000,
        decreases to - k,
    {
        proof {
            lemma_be_num_bound(pkt@.subrange(from as int, k as int));
            lemma_pow256_mono((k - from + 1) as nat, 16);
            assert(pow256((k - from + 1) as nat) == 256 * pow256((k - from) as nat));
            assert(acc * 256 + 255 < pow256((k - from + 1) as nat));
            assert(pkt@.subrange(from as int, k + 1).drop_last() =~= pkt@.subrange(from as int, k as int));
        }
        acc = acc * 256 + pkt[k] as u128;
        k = k + 1;
    }
    acc
}

/// Identifier of a TCP flow for coalescing: the addresses, the ports, the
/// acknowledgment number (segments with different ones are not coalesced)
/// and the IP version. An address is held as the number its bytes spell.
#[derive(Debug, Clone, Copy, PartialEq, Eq, Structural)]
pub struct TcpFlowKey {
    pub src_addr: u128,
    pub dst_addr: u128,
    pub src_port: u16,
    pub dst_port: u16,
    pub rx_ack: u32,
    pub is_v6: bool,
}

/// The key of the TCP packet `pkt` whose addresses lie at `src_addr_offset`
/// and `dst_addr_offset` and whose TCP header starts at `tcph_offset`.
pub open spec fn tcp_flow_key(pkt: Seq<u8>, src_addr_offset: int, dst_addr_offset: int, tcph_offset: int) -> TcpFlowKey {
    let addr_size = dst_addr_offset - src_addr_offset;
    TcpFlowKey {
        src_addr: be_num(pkt.subrange(src_addr_offset, dst_addr_offset)) as u128,
        dst_addr: be_num(pkt.subrange(dst_addr_offset, dst_addr_offset + addr_size)) as u128,
        src_port: be16_at(pkt, tcph_offset) as u16,
        dst_port: be16_at(pkt, tcph_offset + 2) as u16,
        rx_ack: be32_at(pkt, tcph_offset + 8) as u32,
        is_v6: addr_size == 16,
    }
}

/// The offsets at which a flow key reads `pkt` are within it.
pub open spec fn key_offsets_ok(len: nat, src_addr_offset: int, dst_addr_offset: int, tcph_offset: int, port_bytes: int) -> bool {
    &&& 0 <= src_addr_offset <= dst_addr_offset
    &&& dst_addr_offset - src_addr_offset <= 16
    &&& dst_addr_offset + (dst_addr_offset - src_addr_offset) <= len
    &&& 0 <= tcph_offset
    &&& tcph_offset + port_bytes <= len
}

impl TcpFlowKey {
    fn new(pkt: &[u8], src_addr_offset: usize, dst_addr_offset: usize, tcph_offset: usize) -> (k: TcpFlowKey)
        requires
            key_offsets_ok(pkt@.len(), src_addr_offset as int, dst_addr_offset as int, tcph_offset as int, 12),
        ensures
            k == tcp_flow_key(pkt@, src_addr_offset as int, dst_addr_offset as int, tcph_offset as int),
    {
        let plen = pkt.len();
        let addr_size = dst_addr_offset - src_addr_offset;
        TcpFlowKey {
            src_addr: addr_value(pkt, src_addr_offset, dst_addr_offset),
            dst_addr: addr_value(pkt, dst_addr_offset, dst_addr_offset + addr_size),
            src_port: read_be16(pkt, tcph_offset),
            dst_port: read_be16(pkt, tcph_offset + 2),
            rx_ack: read_be32(pkt, tcph_offset + 8),
            is_v6: addr_size == 16,
        }
    }
}

/// Identifier of a UDP flow for coalescing: addresses, ports and IP
/// version.
#[derive(Debug, Clone, Copy, PartialEq, Eq, Structural)]
pub struct UdpFlowKey {
    pub src_addr: u128,
    pub dst_addr: u128,
    pub src_port: u16,
    pub dst_port: u16,
    pub is_v6: bool,
}

/// The key of the UDP packet `pkt` whose addresses lie at `src_addr_offset`
/// and `dst_addr_offset` and whose UDP header starts at `udph_offset`.
pub open spec fn udp_flow_key(pkt: Seq<u8>, src_addr_offset: int, dst_addr_offset: int, udph_offset: int) -> UdpFlowKey {
    let addr_size = dst_addr_offset - src_addr_offset;
    UdpFlowKey {
        src_addr: be_num(pkt.subrange(src_addr_offset, dst_addr_offset)) as u128,
        dst_addr: be_num(pkt.subrange(dst_addr_offset, dst_addr_offset + addr_size)) as u128,
        src_port: be16_at(pkt, udph_offset) as u16,
        dst_port: be16_at(pkt, udph_offset + 2) as u16,
        is_v6: addr_size == 16,
    }
}

impl UdpFlowKey {
    pub fn new(pkt: &[u8], src_addr_offset: usize, dst_addr_offset: usize, udph_offset: usize) -> (k: UdpFlowKey)
        requires
            key_offsets_ok(pkt@.len(), src_addr_offset as int, dst_addr_offset as int, udph_offset as int, 4),
        ensures
            k == udp_flow_key(pkt@, src_addr_offset as int, dst_addr_offset as int, udph_offset as int),
    {
        let plen = pkt.len();
        let addr_size = dst_addr_offset - src_addr_offset;
        UdpFlowKey {
            src_addr: addr_value(pkt, src_addr_offset, dst_addr_offset),
            dst_addr: addr_value(pkt, dst_addr_offset, dst_addr_offset + addr_size),
            src_port: read_be16(pkt, udph_offset),
            dst_port: read_be16(pkt, udph_offset + 2),
            is_v6: addr_size == 16,
        }
    }
}

/// Bookkeeping for one TCP packet during a GRO evaluation of a batch.
#[derive(Debug, Clone, Copy, PartialEq, Eq, Structural)]
pub struct TcpGROItem {
    pub key: TcpFlowKey,
    /// The sequence number.
    pub sent_seq: u32,
    /// The index into the batch of buffers.
    pub bufs_index: u16,
    /// The number of packets merged into this one.
    pub num_merged: u16,
    /// The payload size.
    pub gso_size: u16,
    /// The IP header length.
    pub iph_len: u8,
    /// The TCP header length.
    pub tcph_len: u8,
    /// Whether the PSH flag is set.
    pub psh_set: bool,
}

/// Bookkeeping for one UDP packet during a GRO evaluation of a batch.
#[derive(Debug, Clone, Copy, PartialEq, Eq, Structural)]
pub struct UdpGROItem {
    pub key: UdpFlowKey,
    /// The index into the batch of buffers.
    pub bufs_index: u16,
    /// The number of packets merged into this one.
    pub num_merged: u16,
    /// The payload size.
    pub gso_size: u16,
    /// The IP header length.
    pub iph_len: u8,
    /// Whether the UDP checksum is known to be invalid (false means unknown).
    pub c_sum_known_invalid: bool,
}

/// The position of the flow with `key` in `flows`, if there is one.
pub open spec fn flow_position<K, T>(flows: Seq<(K, T)>, key: K) -> Option<int> {
    if exists|j: int| 0 <= j < flows.len() && flows[j].0 == key {
        Some(choose|j: int| 0 <= j < flows.len() && flows[j].0 == key)
    } else {
        None
    }
}

/// No key occurs twice in `flows`.
pub open spec fn keys_distinct<K, T>(flows: Seq<(K, T)>) -> bool {
    forall|a: int, b: int| 0 <= a < b < flows.len() ==> flows[a].0 != flows[b].0
}

/// `flows` with `item` appended to the flow of `key`, which is created at
/// the end if it is not there.
pub open spec fn flows_insert<K, I>(flows: Seq<(K, Seq<I>)>, key: K, item: I) -> Seq<(K, Seq<I>)> {
    match flow_position(flows, key) {
        Some(j) => flows.update(j, (key, flows[j].1.push(item))),
        None => flows.push((key, seq![item])),
    }
}

/// The item a TCP packet is tracked with when it joins the table.
pub open spec fn tcp_item(pkt: Seq<u8>, src_addr_offset: int, dst_addr_offset: int, tcph_offset: int, tcph_len: int, bufs_index: int) -> TcpGROItem {
    TcpGROItem {
        key: tcp_flow_key(pkt, src_addr_offset, dst_addr_offset, tcph_offset),
        bufs_index: bufs_index as u16,
        num_merged: 0,
        gso_size: (pkt.len() - (tcph_offset + tcph_len)) as u16,
        iph_len: tcph_offset as u8,
        tcph_len: tcph_len as u8,
        sent_seq: be32_at(pkt, tcph_offset + 4) as u32,
        psh_set: pkt[tcph_offset + 13] & 0x08u8 != 0,
    }
}

/// The item a UDP packet is tracked with when it joins the table.
pub open spec fn udp_item(pkt: Seq<u8>, src_addr_offset: int, dst_addr_offset: int, udph_offset: int, bufs_index: int, c_sum_known_invalid: bool) -> UdpGROItem {
    UdpGROItem {
        key: udp_flow_key(pkt, src_addr_offset, dst_addr_offset, udph_offset),
        bufs_index: bufs_index as u16,
        num_merged: 0,
        gso_size: (pkt.len() - (udph_offset + 8)) as u16,
        iph_len: udph_offset as u8,
        c_sum_known_invalid,
    }
}

/// TCP GRO table: the flows of the batch in the order they were first seen,
/// each with the items tracked for it, and a pool of emptied item vectors
/// kept for reuse.
pub struct TcpGROTable {
    keys: Vec<TcpFlowKey>,
    items: Vec<Vec<TcpGROItem>>,
    items_pool: Vec<Vec<TcpGROItem>>,
}

/// UDP GRO table: the flows of the batch in the order they were first seen,
/// each with the items tracked for it, and a pool of emptied item vectors
/// kept for reuse.
pub struct UdpGROTable {
    keys: Vec<UdpFlowKey>,
    items: Vec<Vec<UdpGROItem>>,
    items_pool: Vec<Vec<UdpGROItem>>,
}

/// `n` item vectors that hold no items.
pub open spec fn empty_pool<T>(n: nat) -> Seq<Seq<T>> {
    Seq::new(n, |j: int| Seq::<T>::empty())
}

impl TcpGROTable {
    /// The flows of the table, each key with its items.
    pub closed spec fn flows(&self) -> Seq<(TcpFlowKey, Seq<TcpGROItem>)> {
        Seq::new(self.keys@.len(), |j: int| (self.keys@[j], self.items@[j]@))
    }

    /// The table is well formed: one item vector per key, no key twice,
    /// and only empty vectors in the pool.
    pub closed spec fn wf(&self) -> bool {
        &&& self.keys@.len() == self.items@.len()
        &&& keys_distinct(self.flows())
        &&& forall|j: int| 0 <= j < self.items_pool@.len() ==> self.items_pool@[j]@.len() == 0
    }

    /// The item vectors kept for reuse, each by its items.
    pub closed spec fn pool(&self) -> Seq<Seq<TcpGROItem>> {
        Seq::new(self.items_pool@.len(), |j: int| self.items_pool@[j]@)
    }

    /// An empty table, with a pool of [`IDEAL_BATCH_SIZE`] item vectors.
    pub fn new() -> (t: TcpGROTable)
        ensures
            t.wf(),
            t.flows() == Seq::<(TcpFlowKey, Seq<TcpGROItem>)>::empty(),
            t.pool() == empty_pool::<TcpGROItem>(IDEAL_BATCH_SIZE as nat),
    {
        let mut items_pool: Vec<Vec<TcpGROItem>> = Vec::with_capacity(IDEAL_BATCH_SIZE);
        let mut n: usize = 0;
        while n < IDEAL_BATCH_SIZE
            invariant
                n <= IDEAL_BATCH_SIZE,
                items_pool@.len() == n,
                forall|j: int| 0 <= j < items_pool@.len() ==> items_pool@[j]@.len() == 0,
            decreases IDEAL_BATCH_SIZE - n,
        {
            items_pool.push(Vec::with_capacity(IDEAL_BATCH_SIZE));
            n = n + 1;
        }
        let t = TcpGROTable { keys: Vec::with_capacity(IDEAL_BATCH_SIZE), items: Vec::with_capacity(IDEAL_BATCH_SIZE), items_pool };
        assert(t.flows() =~= Seq::<(TcpFlowKey, Seq<TcpGROItem>)>::empty());
        assert(t.pool() =~~= empty_pool::<TcpGROItem>(IDEAL_BATCH_SIZE as nat));
        t
    }

    /// The position of the flow of `key`.
    fn find(&self, key: &TcpFlowKey) -> (r: Option<usize>)
        requires
            self.wf(),
        ensures
            match r {
                Some(j) => flow_position(self.flows(), *key) == Some(j as int),
                None => flow_position(self.flows(), *key) is None,
            },
    {
        let n = self.keys.len();
        let mut j: usize = 0;
        while j < n
            invariant
                n == self.keys@.len(),
                self.wf(),
                j <= n,
                forall|a: int| 0 <= a < j ==> self.keys@[a] != *key,
            decreases n - j,
        {
            if self.keys[j] == *key {
                assert(self.flows()[j as int].0 == *key);
                let ghost c = choose|c: int| 0 <= c < self.flows().len() && self.flows()[c].0 == *key;
                assert(c == j) by {
                    if c < j {
                        assert(self.flows()[c].0 == self.keys@[c]);
                    } else if c > j {
                        assert(self.flows()[j as int].0 != self.flows()[c].0);
                    }
                }
                return Some(j);
            }
            j = j + 1;
        }
        assert forall|c: int| 0 <= c < self.flows().len() implies self.flows()[c].0 != *key by {
            assert(self.flows()[c].0 == self.keys@[c]);
        }
        None
    }

    /// Appends `item` to the flow of `key`, creating the flow (with a vector
    /// from the pool, or a new one) where there is none.
    fn push_item(&mut self, key: TcpFlowKey, item: TcpGROItem)
        requires
            old(self).wf(),
        ensures
            final(self).wf(),
            final(self).flows() == flows_insert(old(self).flows(), key, item),
    {
        match self.find(&key) {
            Some(j) => {
                let ghost f0 = self.flows();
                self.items[j].push(item);
                assert(self.flows() =~= f0.update(j as int, (key, f0[j as int].1.push(item))));
                assert(keys_distinct(self.flows())) by {
                    assert forall|a: int, b: int| 0 <= a < b < self.flows().len() implies self.flows()[a].0 != self.flows()[b].0 by {
                        assert(self.flows()[a].0 == f0[a].0);
                        assert(self.flows()[b].0 == f0[b].0);
                    }
                }
            },
            None => {
                let ghost f0 = self.flows();
                let mut items = match self.items_pool.pop() {
                    Some(v) => v,
                    None => Vec::new(),
                };
                assert(items@.len() == 0);
                items.push(item);
                self.keys.push(key);
                self.items.push(items);
                assert(items@ =~= seq![item]);
                assert(self.flows() =~= f0.push((key, seq![item])));
                assert(keys_distinct(self.flows())) by {
                    assert forall|a: int, b: int| 0 <= a < b < self.flows().len() implies self.flows()[a].0 != self.flows()[b].0 by {
                        if b == f0.len() {
                            assert(f0[a].0 != key);
                        } else {
                            assert(self.flows()[a].0 == f0[a].0);
                            assert(self.flows()[b].0 == f0[b].0);
                        }
                    }
                }
            },
        }
    }

    /// Tracks the packet `pkt` (found at `bufs_index` in the batch) in the
    /// table, with the item [`tcp_item`] describes.
    fn insert(
        &mut self,
        pkt: &[u8],
        src_addr_offset: usize,
        dst_addr_offset: usize,
        tcph_offset: usize,
        tcph_len: usize,
        bufs_index: usize,
    )
        requires
            old(self).wf(),
            key_offsets_ok(pkt@.len(), src_addr_offset as int, dst_addr_offset as int, tcph_offset as int, 14),
            tcph_offset + tcph_len <= pkt@.len(),
            pkt@.len() - (tcph_offset + tcph_len) <= u16::MAX,
            tcph_offset <= u8::MAX,
            tcph_len <= u8::MAX,
            bufs_index <= u16::MAX,
        ensures
            final(self).wf(),
            final(self).flows() == flows_insert(
                old(self).flows(),
                tcp_flow_key(pkt@, src_addr_offset as int, dst_addr_offset as int, tcph_offset as int),
                tcp_item(pkt@, src_addr_offset as int, dst_addr_offset as int, tcph_offset as int, tcph_len as int, bufs_index as int),
            ),
    {
        let key = TcpFlowKey::new(pkt, src_addr_offset, dst_addr_offset, tcph_offset);
        let item = TcpGROItem {
            key,
            bufs_index: bufs_index as u16,
            num_merged: 0,
            gso_size: (pkt.len() - (tcph_offset + tcph_len)) as u16,
            iph_len: tcph_offset as u8,
            tcph_len: tcph_len as u8,
            sent_seq: read_be32(pkt, tcph_offset + 4),
            psh_set: pkt[tcph_offset + 13] & 0x08u8 != 0,
        };
        self.push_item(key, item);
    }

    /// Looks up the flow of `pkt`; where there is none, the packet is
    /// inserted as [`TcpGROTable::insert`] does and `None` comes back.
    fn lookup_or_insert(
        &mut self,
        pkt: &[u8],
        src_addr_offset: usize,
        dst_addr_offset: usize,
        tcph_offset: usize,
        tcph_len: usize,
        bufs_index: usize,
    ) -> (r: Option<usize>)
        requires
            old(self).wf(),
            key_offsets_ok(pkt@.len(), src_addr_offset as int, dst_addr_offset as int, tcph_offset as int, 14),
            tcph_offset + tcph_len <= pkt@.len(),
            pkt@.len() - (tcph_offset + tcph_len) <= u16::MAX,
            tcph_offset <= u8::MAX,
            tcph_len <= u8::MAX,
            bufs_index <= u16::MAX,
        ensures
            final(self).wf(),
            ({
                let key = tcp_flow_key(pkt@, src_addr_offset as int, dst_addr_offset as int, tcph_offset as int);
                match r {
                    Some(j) => flow_position(old(self).flows(), key) == Some(j as int) && final(self).flows() == old(self).flows(),
                    None => flow_position(old(self).flows(), key) is None && final(self).flows() == flows_insert(
                        old(self).flows(),
                        key,
                        tcp_item(pkt@, src_addr_offset as int, dst_addr_offset as int, tcph_offset as int, tcph_len as int, bufs_index as int),
                    ),
                }
            }),
    {
        let key = TcpFlowKey::new(pkt, src_addr_offset, dst_addr_offset, tcph_offset);
        match self.find(&key) {
            Some(j) => Some(j),
            None => {
                self.insert(pkt, src_addr_offset, dst_addr_offset, tcph_offset, tcph_len, bufs_index);
                None
            },
        }
    }

    /// Empties the table, keeping its item vectors, cleared, in the pool.
    pub fn reset(&mut self)
        requires
            old(self).wf(),
        ensures
            final(self).wf(),
            final(self).flows() == Seq::<(TcpFlowKey, Seq<TcpGROItem>)>::empty(),
            final(self).pool() == empty_pool::<TcpGROItem>(old(self).pool().len() + old(self).flows().len()),
    {
        while self.items.len() > 0
            invariant
                forall|j: int| 0 <= j < self.items_pool@.len() ==> self.items_pool@[j]@.len() == 0,
                self.items_pool@.len() + self.items@.len() == old(self).pool().len() + old(self).flows().len(),
            decreases self.items@.len(),
        {
            let mut v = self.items.pop().unwrap();
            v.clear();
            self.items_pool.push(v);
        }
        self.keys.clear();
        assert(self.flows() =~= Seq::<(TcpFlowKey, Seq<TcpGROItem>)>::empty());
        assert(self.pool() =~~= empty_pool::<TcpGROItem>(old(self).pool().len() + old(self).flows().len()));
    }
}

impl UdpGROTable {
    /// The flows of the table, each key with its items.
    pub closed spec fn flows(&self) -> Seq<(UdpFlowKey, Seq<UdpGROItem>)> {
        Seq::new(self.keys@.len(), |j: int| (self.keys@[j], self.items@[j]@))
    }

    /// The table is well formed: one item vector per key, no key twice,
    /// and only empty vectors in the pool.
    pub closed spec fn wf(&self) -> bool {
        &&& self.keys@.len() == self.items@.len()
        &&& keys_distinct(self.flows())
        &&& forall|j: int| 0 <= j < self.items_pool@.len() ==> self.items_pool@[j]@.len() == 0
    }

    /// The item vectors kept for reuse, each by its items.
    pub closed spec fn pool(&self) -> Seq<Seq<UdpGROItem>> {
        Seq::new(self.items_pool@.len(), |j: int| self.items_pool@[j]@)
    }

    /// An empty table, with a pool of [`IDEAL_BATCH_SIZE`] item vectors.
    pub fn new() -> (t: UdpGROTable)
        ensures
            t.wf(),
            t.flows() == Seq::<(UdpFlowKey, Seq<UdpGROItem>)>::empty(),
            t.pool() == empty_pool::<UdpGROItem>(IDEAL_BATCH_SIZE as nat),
    {
        let mut items_pool: Vec<Vec<UdpGROItem>> = Vec::with_capacity(IDEAL_BATCH_SIZE);
        let mut n: usize = 0;
        while n < IDEAL_BATCH_SIZE
            invariant
                n <= IDEAL_BATCH_SIZE,
                items_pool@.len() == n,
                forall|j: int| 0 <= j < items_pool@.len() ==> items_pool@[j]@.len() == 0,
            decreases IDEAL_BATCH_SIZE - n,
        {
            items_pool.push(Vec::with_capacity(IDEAL_BATCH_SIZE));
            n = n + 1;
        }
        let t = UdpGROTable { keys: Vec::with_capacity(IDEAL_BATCH_SIZE), items: Vec::with_capacity(IDEAL_BATCH_SIZE), items_pool };
        assert(t.flows() =~= Seq::<(UdpFlowKey, Seq<UdpGROItem>)>::empty());
        assert(t.pool() =~~= empty_pool::<UdpGROItem>(IDEAL_BATCH_SIZE as nat));
        t
    }

    /// The position of the flow of `key`.
    fn find(&self, key: &UdpFlowKey) -> (r: Option<usize>)
        requires
            self.wf(),
        ensures
            match r {
                Some(j) => flow_position(self.flows(), *key) == Some(j as int),
                None => flow_position(self.flows(), *key) is None,
            },
    {
        let n = self.keys.len();
        let mut j: usize = 0;
        while j < n
            invariant
                n == self.keys@.len(),
                self.wf(),
                j <= n,
                forall|a: int| 0 <= a < j ==> self.keys@[a] != *key,
            decreases n - j,
        {
            if self.keys[j] == *key {
                assert(self.flows()[j as int].0 == *key);
                let ghost c = choose|c: int| 0 <= c < self.flows().len() && self.flows()[c].0 == *key;
                assert(c == j) by {
                    if c < j {
                        assert(self.flows()[c].0 == self.keys@[c]);
                    } else if c > j {
                        assert(self.flows()[j as int].0 != self.flows()[c].0);
                    }
                }
                return Some(j);
            }
            j = j + 1;
        }
        assert forall|c: int| 0 <= c < self.flows().len() implies self.flows()[c].0 != *key by {
            assert(self.flows()[c].0 == self.keys@[c]);
        }
        None
    }

    /// Appends `item` to the flow of `key`, creating the flow (with a vector
    /// from the pool, or a new one) where there is none.
    fn push_item(&mut self, key: UdpFlowKey, item: UdpGROItem)
        requires
            old(self).wf(),
        ensures
            final(self).wf(),
            final(self).flows() == flows_insert(old(self).flows(), key, item),
    {
        match self.find(&key) {
            Some(j) => {
                let ghost f0 = self.flows();
                self.items[j].push(item);
                assert(self.flows() =~= f0.update(j as int, (key, f0[j as int].1.push(item))));
                assert(keys_distinct(self.flows())) by {
                    assert forall|a: int, b: int| 0 <= a < b < self.flows().len() implies self.flows()[a].0 != self.flows()[b].0 by {
                        assert(self.flows()[a].0 == f0[a].0);
                        assert(self.flows()[b].0 == f0[b].0);
                    }
                }
            },
            None => {
                let ghost f0 = self.flows();
                let mut items = match self.items_pool.pop() {
                    Some(v) => v,
                    None => Vec::new(),
                };
                assert(items@.len() == 0);
                items.push(item);
                self.keys.push(key);
                self.items.push(items);
                assert(items@ =~= seq![item]);
                assert(self.flows() =~= f0.push((key, seq![item])));
                assert(keys_distinct(self.flows())) by {
                    assert forall|a: int, b: int| 0 <= a < b < self.flows().len() implies self.flows()[a].0 != self.flows()[b].0 by {
                        if b == f0.len() {
                            assert(f0[a].0 != key);
                        } else {
                            assert(self.flows()[a].0 == f0[a].0);
                            assert(self.flows()[b].0 == f0[b].0);
                        }
                    }
                }
            },
        }
    }

    /// Tracks the packet `pkt` (found at `bufs_index` in the batch) in the
    /// table, with the item [`udp_item`] describes.
    fn insert(
        &mut self,
        pkt: &[u8],
        src_addr_offset: usize,
        dst_addr_offset: usize,
        udph_offset: usize,
        bufs_index: usize,
        c_sum_known_invalid: bool,
    )
        requires
            old(self).wf(),
            key_offsets_ok(pkt@.len(), src_addr_offset as int, dst_addr_offset as int, udph_offset as int, 4),
            udph_offset + 8 <= pkt@.len(),
            pkt@.len() - (udph_offset + 8) <= u16::MAX,
            udph_offset <= u8::MAX,
            bufs_index <= u16::MAX,
        ensures
            final(self).wf(),
            final(self).flows() == flows_insert(
                old(self).flows(),
                udp_flow_key(pkt@, src_addr_offset as int, dst_addr_offset as int, udph_offset as int),
                udp_item(pkt@, src_addr_offset as int, dst_addr_offset as int, udph_offset as int, bufs_index as int, c_sum_known_invalid),
            ),
    {
        let key = UdpFlowKey::new(pkt, src_addr_offset, dst_addr_offset, udph_offset);
        let item = UdpGROItem {
            key,
            bufs_index: bufs_index as u16,
            num_merged: 0,
            gso_size: (pkt.len() - (udph_offset + UDP_H_LEN)) as u16,
            iph_len: udph_offset as u8,
            c_sum_known_invalid,
        };
        self.push_item(key, item);
    }

    /// Looks up the flow of `pkt`; where there is none, the packet is
    /// inserted as [`UdpGROTable::insert`] does (its checksum not known to be
    /// invalid) and `None` comes back.
    fn lookup_or_insert(
        &mut self,
        pkt: &[u8],
        src_addr_offset: usize,
        dst_addr_offset: usize,
        udph_offset: usize,
        bufs_index: usize,
    ) -> (r: Option<usize>)
        requires
            old(self).wf(),
            key_offsets_ok(pkt@.len(), src_addr_offset as int, dst_addr_offset as int, udph_offset as int, 4),
            udph_offset + 8 <= pkt@.len(),
            pkt@.len() - (udph_offset + 8) <= u16::MAX,
            udph_offset <= u8::MAX,
            bufs_index <= u16::MAX,
        ensures
            final(self).wf(),
            ({
                let key = udp_flow_key(pkt@, src_addr_offset as int, dst_addr_offset as int, udph_offset as int);
                match r {
                    Some(j) => flow_position(old(self).flows(), key) == Some(j as int) && final(self).flows() == old(self).flows(),
                    None => flow_position(old(self).flows(), key) is None && final(self).flows() == flows_insert(
                        old(self).flows(),
                        key,
                        udp_item(pkt@, src_addr_offset as int, dst_addr_offset as int, udph_offset as int, bufs_index as int, false),
                    ),
                }
            }),
    {
        let key = UdpFlowKey::new(pkt, src_addr_offset, dst_addr_offset, udph_offset);
        match self.find(&key) {
            Some(j) => Some(j),
            None => {
                self.insert(pkt, src_addr_offset, dst_addr_offset, udph_offset, bufs_index, false);
                None
            },
        }
    }

    /// Empties the table, keeping its item vectors, cleared, in the pool.
    pub fn reset(&mut self)
        requires
            old(self).wf(),
        ensures
            final(self).wf(),
            final(self).flows() == Seq::<(UdpFlowKey, Seq<UdpGROItem>)>::empty(),
            final(self).pool() == empty_pool::<UdpGROItem>(old(self).pool().len() + old(self).flows().len()),
    {
        while self.items.len() > 0
            invariant
                forall|j: int| 0 <= j < self.items_pool@.len() ==> self.items_pool@[j]@.len() == 0,
                self.items_pool@.len() + self.items@.len() == old(self).pool().len() + old(self).flows().len(),
            decreases self.items@.len(),
        {
            let mut v = self.items.pop().unwrap();
            v.clear();
            self.items_pool.push(v);
        }
        self.keys.clear();
        assert(self.flows() =~= Seq::<(UdpFlowKey, Seq<UdpGROItem>)>::empty());
        assert(self.pool() =~~= empty_pool::<UdpGROItem>(old(self).pool().len() + old(self).flows().len()));
    }
}


/// The outcome of checking whether two packets can be coalesced.
#[derive(Debug, Clone, Copy, PartialEq, Eq, Structural)]
pub enum CanCoalesce {
    /// The packet goes in front of the item.
    Prepend,
    /// The packets cannot be coalesced.
    Unavailable,
    /// The packet goes after the item.
    Append,
}

/// The IP headers of `a` and `b` allow them to be merged: for IPv6 equal
/// version and traffic class and equal hop limits; for IPv4 equal ToS,
/// equal DF and reserved bits, and equal TTLs.
pub open spec fn ip_headers_coalescible(a: Seq<u8>, b: Seq<u8>) -> bool {
    if a.len() < 9 || b.len() < 9 {
        false
    } else if a[0] / 16 == 6 {
        a[0] == b[0] && a[1] / 16 == b[1] / 16 && a[7] == b[7]
    } else {
        a[1] == b[1] && a[6] / 32 == b[6] / 32 && a[8] == b[8]
    }
}

/// Whether the IP headers of `pkt_a` and `pkt_b` meet all requirements to be
/// merged as part of a GRO operation.
pub fn ip_headers_can_coalesce(pkt_a: &[u8], pkt_b: &[u8]) -> (r: bool)
    ensures
        r == ip_headers_coalescible(pkt_a@, pkt_b@),
{
    if pkt_a.len() < 9 || pkt_b.len() < 9 {
        return false;
    }
    let (a0, a1, a6, b0, b1, b6) = (pkt_a[0], pkt_a[1], pkt_a[6], pkt_b[0], pkt_b[1], pkt_b[6]);
    assert(a0 >> 4 == a0 / 16 && a1 >> 4 == a1 / 16 && b1 >> 4 == b1 / 16 && a6 >> 5 == a6 / 32
        && b6 >> 5 == b6 / 32) by (bit_vector);
    if a0 >> 4 == 6 {
        if a0 != b0 || a1 >> 4 != b1 >> 4 {
            return false;
        }
        if pkt_a[7] != pkt_b[7] {
            return false;
        }
    } else {
        if a1 != b1 {
            return false;
        }
        if a6 >> 5 != b6 >> 5 {
            return false;
        }
        if pkt_a[8] != pkt_b[8] {
            return false;
        }
    }
    true
}

/// The packet of buffer `i` of the batch: its bytes from `offset`.
pub open spec fn pkt_of(bufs: Seq<Seq<u8>>, i: int, offset: int) -> Seq<u8> {
    bufs[i].subrange(offset, bufs[i].len() as int)
}

/// The bytes of each buffer of the batch.
pub open spec fn bytes_of(bufs: Seq<Vec<u8>>) -> Seq<Seq<u8>> {
    Seq::new(bufs.len(), |i: int| bufs[i]@)
}

/// Whether the UDP packet `pkt` (IP header length `iph_len`, payload size
/// `gso_size`) can follow the packet `target` described by `item`: the IP
/// headers agree, no smaller packet ends the target yet, and `pkt` is no
/// larger than the target's segments.
pub open spec fn udp_coalescible(pkt: Seq<u8>, iph_len: u8, gso_size: u16, item: UdpGROItem, target: Seq<u8>) -> CanCoalesce {
    if !ip_headers_coalescible(pkt, target) {
        CanCoalesce::Unavailable
    } else if (target.len() - (iph_len + 8)) % (item.gso_size as int) != 0 {
        CanCoalesce::Unavailable
    } else if gso_size > item.gso_size {
        CanCoalesce::Unavailable
    } else {
        CanCoalesce::Append
    }
}

/// Evaluates whether `pkt` can be coalesced with the packet described by
/// `item`, found in `bufs` from `bufs_offset`.
pub fn udp_packets_can_coalesce(
    pkt: &[u8],
    iph_len: u8,
    gso_size: u16,
    item: &UdpGROItem,
    bufs: &Vec<Vec<u8>>,
    bufs_offset: usize,
) -> (r: CanCoalesce)
    requires
        item.bufs_index < bufs@.len(),
        bufs_offset <= bufs@[item.bufs_index as int]@.len(),
        iph_len + 8 <= bufs@[item.bufs_index as int]@.len() - bufs_offset,
        item.gso_size > 0,
    ensures
        r == udp_coalescible(pkt@, iph_len, gso_size, *item, pkt_of(bytes_of(bufs@), item.bufs_index as int, bufs_offset as int)),
{
    let target_buf = &bufs[item.bufs_index as usize];
    let pkt_target = &target_buf.as_slice()[bufs_offset..target_buf.len()];
    if !ip_headers_can_coalesce(pkt, pkt_target) {
        return CanCoalesce::Unavailable;
    }
    if (pkt_target.len() - (iph_len as usize + UDP_H_LEN)) % (item.gso_size as usize) != 0 {
        return CanCoalesce::Unavailable;
    }
    if gso_size > item.gso_size {
        return CanCoalesce::Unavailable;
    }
    CanCoalesce::Append
}

/// Whether the TCP packet `pkt` (IP and TCP header lengths `iph_len` and
/// `tcph_len`, sequence number `seq`, PSH flag `psh_set`, payload size
/// `gso_size`) can be coalesced with the packet `target` described by
/// `item`, following it or in front of it by sequence number; this matches
/// the kernel's GRO self tests. Where the headers the check compares do not
/// fit the packets, the packets cannot be coalesced.
pub open spec fn tcp_coalescible(
    pkt: Seq<u8>,
    iph_len: u8,
    tcph_len: u8,
    seq: u32,
    psh_set: bool,
    gso_size: u16,
    item: TcpGROItem,
    target: Seq<u8>,
) -> CanCoalesce {
    let iph = iph_len as int;
    let tcph = tcph_len as int;
    let iiph = item.iph_len as int;
    if tcph_len != item.tcph_len {
        CanCoalesce::Unavailable
    } else if tcph_len > 20 && (iph + tcph > pkt.len() || iiph + tcph > target.len()
        || pkt.subrange(iph + 20, iph + tcph) != target.subrange(iiph + 20, iiph + tcph)) {
        CanCoalesce::Unavailable
    } else if !ip_headers_coalescible(pkt, target) {
        CanCoalesce::Unavailable
    } else if seq as nat == (item.sent_seq as nat + (item.gso_size as nat) * (item.num_merged as nat + 1)) % 0x1_0000_0000 {
        if item.psh_set {
            CanCoalesce::Unavailable
        } else if target.len() < iph + tcph {
            CanCoalesce::Unavailable
        } else if (target.len() - (iph + tcph)) % (item.gso_size as int) != 0 {
            CanCoalesce::Unavailable
        } else if gso_size > item.gso_size {
            CanCoalesce::Unavailable
        } else {
            CanCoalesce::Append
        }
    } else if (seq as nat + gso_size as nat) % 0x1_0000_0000 == item.sent_seq as nat {
        if psh_set {
            CanCoalesce::Unavailable
        } else if gso_size < item.gso_size {
            CanCoalesce::Unavailable
        } else if gso_size > item.gso_size && item.num_merged > 0 {
            CanCoalesce::Unavailable
        } else {
            CanCoalesce::Prepend
        }
    } else {
        CanCoalesce::Unavailable
    }
}

/// Evaluates whether `pkt` can be coalesced with the packet described by
/// `item`, found in `bufs` from `bufs_offset`.
pub fn tcp_packets_can_coalesce(
    pkt: &[u8],
    iph_len: u8,
    tcph_len: u8,
    seq: u32,
    psh_set: bool,
    gso_size: u16,
    item: &TcpGROItem,
    bufs: &Vec<Vec<u8>>,
    bufs_offset: usize,
) -> (r: CanCoalesce)
    requires
        item.bufs_index < bufs@.len(),
        bufs_offset <= bufs@[item.bufs_index as int]@.len(),
        item.gso_size > 0,
    ensures
        r == tcp_coalescible(pkt@, iph_len, tcph_len, seq, psh_set, gso_size, *item, pkt_of(bytes_of(bufs@), item.bufs_index as int, bufs_offset as int)),
{
    let target_buf = &bufs[item.bufs_index as usize];
    let pkt_target = &target_buf.as_slice()[bufs_offset..target_buf.len()];
    if tcph_len != item.tcph_len {
        return CanCoalesce::Unavailable;
    }
    if tcph_len > 20 {
        if iph_len as usize + tcph_len as usize > pkt.len()
            || item.iph_len as usize + tcph_len as usize > pkt_target.len() {
            return CanCoalesce::Unavailable;
        }
        let a = &pkt[iph_len as usize + 20..iph_len as usize + tcph_len as usize];
        let b = &pkt_target[item.iph_len as usize + 20..item.iph_len as usize + tcph_len as usize];
        if !bytes_equal(a, b) {
            return CanCoalesce::Unavailable;
        }
    }
    if !ip_headers_can_coalesce(pkt, pkt_target) {
        return CanCoalesce::Unavailable;
    }
    let mut lhs_len = item.gso_size as usize;
    assert((item.num_merged as nat) * (item.gso_size as nat) <= 0xFFFF * 0xFFFF) by (nonlinear_arith)
        requires
            item.num_merged <= 0xFFFF,
            item.gso_size <= 0xFFFF,
    ;
    lhs_len += (item.num_merged as usize) * (item.gso_size as usize);
    assert(lhs_len == (item.gso_size as nat) * (item.num_merged as nat + 1)) by (nonlinear_arith)
        requires
            lhs_len == item.gso_size + (item.num_merged as nat) * (item.gso_size as nat),
    ;
    if seq == item.sent_seq.wrapping_add(lhs_len as u32) {
        if item.psh_set {
            return CanCoalesce::Unavailable;
        }
        if pkt_target.len() < iph_len as usize + tcph_len as usize {
            return CanCoalesce::Unavailable;
        }
        if (pkt_target.len() - (iph_len as usize + tcph_len as usize)) % (item.gso_size as usize) != 0 {
            return CanCoalesce::Unavailable;
        }
        if gso_size > item.gso_size {
            return CanCoalesce::Unavailable;
        }
        return CanCoalesce::Append;
    } else if seq.wrapping_add(gso_size as u32) == item.sent_seq {
        if psh_set {
            return CanCoalesce::Unavailable;
        }
        if gso_size < item.gso_size {
            return CanCoalesce::Unavailable;
        }
        if gso_size > item.gso_size && item.num_merged > 0 {
            return CanCoalesce::Unavailable;
        }
        return CanCoalesce::Prepend;
    }
    CanCoalesce::Unavailable
}

/// What a TCP coalescing answer guarantees. An append follows the item in
/// sequence, after an item whose last segment had no PSH and holds whole
/// segments, with a packet no larger than the item's segments; a prepend
/// precedes the item in sequence, with a packet without PSH no smaller than
/// its segments. Either needs equal TCP header lengths and coalescible IP
/// headers.
pub proof fn lemma_tcp_coalescible_guarantees(
    pkt: Seq<u8>,
    iph_len: u8,
    tcph_len: u8,
    seq: u32,
    psh_set: bool,
    gso_size: u16,
    item: TcpGROItem,
    target: Seq<u8>,
)
    requires
        item.gso_size > 0,
    ensures
        tcp_coalescible(pkt, iph_len, tcph_len, seq, psh_set, gso_size, item, target) == CanCoalesce::Append ==> {
            &&& !item.psh_set
            &&& gso_size <= item.gso_size
            &&& seq as nat == (item.sent_seq as nat + (item.gso_size as nat) * (item.num_merged as nat + 1)) % 0x1_0000_0000
            &&& target.len() >= iph_len + tcph_len
            &&& (target.len() - (iph_len + tcph_len)) % (item.gso_size as int) == 0
            &&& tcph_len == item.tcph_len
            &&& ip_headers_coalescible(pkt, target)
        },
        tcp_coalescible(pkt, iph_len, tcph_len, seq, psh_set, gso_size, item, target) == CanCoalesce::Prepend ==> {
            &&& !psh_set
            &&& gso_size >= item.gso_size
            &&& (gso_size > item.gso_size ==> item.num_merged == 0)
            &&& (seq as nat + gso_size as nat) % 0x1_0000_0000 == item.sent_seq as nat
            &&& tcph_len == item.tcph_len
            &&& ip_headers_coalescible(pkt, target)
        },
        item.psh_set ==> tcp_coalescible(pkt, iph_len, tcph_len, seq, psh_set, gso_size, item, target) != CanCoalesce::Append,
        psh_set ==> tcp_coalescible(pkt, iph_len, tcph_len, seq, psh_set, gso_size, item, target) != CanCoalesce::Prepend,
{
}

/// What a UDP coalescing answer guarantees: the packet is only ever
/// appended, after an item that holds whole segments, with a packet no
/// larger than the item's segments and coalescible IP headers.
pub proof fn lemma_udp_coalescible_guarantees(pkt: Seq<u8>, iph_len: u8, gso_size: u16, item: UdpGROItem, target: Seq<u8>)
    requires
        item.gso_size > 0,
    ensures
        udp_coalescible(pkt, iph_len, gso_size, item, target) != CanCoalesce::Prepend,
        udp_coalescible(pkt, iph_len, gso_size, item, target) == CanCoalesce::Append ==> {
            &&& gso_size <= item.gso_size
            &&& (target.len() - (iph_len + 8)) % (item.gso_size as int) == 0
            &&& ip_headers_coalescible(pkt, target)
        },
{
}

/// What the GRO classification guarantees of a packet: a TCP or UDP
/// candidate carries that protocol, in an IPv4 packet without options or an
/// IPv6 packet, long enough for its headers; a UDP candidate needs UDP GRO;
/// and every such packet is a candidate.
pub proof fn lemma_gro_candidate_classifies(b: Seq<u8>, can_udp_gro: bool)
    ensures
        !can_udp_gro ==> gro_candidate(b, can_udp_gro) != GroCandidateType::Udp4GRO && gro_candidate(b, can_udp_gro)
            != GroCandidateType::Udp6GRO,
        gro_candidate(b, can_udp_gro) == GroCandidateType::Tcp4GRO <==> (b.len() >= 40 && b[0] == 0x45 && b[9] == 6),
        gro_candidate(b, can_udp_gro) == GroCandidateType::Udp4GRO <==> (can_udp_gro && b.len() >= 28 && b[0] == 0x45
            && b[9] == 17),
        gro_candidate(b, can_udp_gro) == GroCandidateType::Tcp6GRO <==> (b.len() >= 60 && b[0] / 16 == 6 && b[6] == 6),
        gro_candidate(b, can_udp_gro) == GroCandidateType::Udp6GRO <==> (can_udp_gro && b.len() >= 48 && b[0] / 16 == 6
            && b[6] == 17),
{
    if b.len() >= 1 {
        assert((b[0] / 16 == 4 && b[0] % 16 == 5) <==> b[0] == 0x45);
    }
}

/// Whether two byte slices hold the same bytes.
fn bytes_equal(a: &[u8], b: &[u8]) -> (r: bool)
    ensures
        r == (a@ == b@),
{
    if a.len() != b.len() {
        return false;
    }
    let n = a.len();
    let mut k: usize = 0;
    while k < n
        invariant
            n == a@.len(),
            n == b@.len(),
            k <= n,
            forall|j: int| 0 <= j < k ==> a@[j] == b@[j],
        decreases n - k,
    {
        if a[k] != b[k] {
            return false;
        }
        k = k + 1;
    }
    assert(a@ =~= b@);
    true
}

/// The source address offset and the address length of an IP version.
pub open spec fn addr_layout(is_v6: bool) -> (int, int) {
    if is_v6 {
        (8, 16)
    } else {
        (12, 4)
    }
}

/// The transport checksum of `pkt` (IP header length `iph_len`) verifies:
/// the checksum from the transport header, seeded with the pseudo-header
/// sum, is all ones.
pub open spec fn transport_checksum_valid(pkt: Seq<u8>, iph_len: u8, proto: u8, is_v6: bool) -> bool {
    let (at, size) = addr_layout(is_v6);
    let l = pkt.len() % 0x1_0000;
    let len_for_pseudo = if l >= iph_len { l - iph_len } else { 0 };
    let sum = pseudo_header_sum(proto, pkt.subrange(at, at + size), pkt.subrange(at + size, at + 2 * size), len_for_pseudo as u16);
    checksum_spec(pkt.subrange(iph_len as int, pkt.len() as int), sum) == 0xFFFF
}

/// Whether the transport checksum of `pkt` verifies.
pub fn checksum_valid(pkt: &[u8], iph_len: u8, proto: u8, is_v6: bool) -> (r: bool)
    requires
        pkt@.len() <= u16::MAX,
        iph_len <= pkt@.len(),
        addr_layout(is_v6).0 + 2 * addr_layout(is_v6).1 <= pkt@.len(),
    ensures
        r == transport_checksum_valid(pkt@, iph_len, proto, is_v6),
{
    let (src_addr_at, addr_size) = if is_v6 {
        (IPV6_SRC_ADDR_OFFSET, 16usize)
    } else {
        (IPV4_SRC_ADDR_OFFSET, 4usize)
    };
    let len_for_pseudo = ((pkt.len() % 0x1_0000) as u16).saturating_sub(iph_len as u16);
    let src = &pkt[src_addr_at..src_addr_at + addr_size];
    let dst = &pkt[src_addr_at + addr_size..src_addr_at + addr_size * 2];
    proof {
        lemma_word_sum_bound(src@);
        lemma_word_sum_bound(dst@);
        lemma_word_sum_bound(pkt@.subrange(iph_len as int, pkt@.len() as int));
    }
    let c_sum = pseudo_header_checksum_no_fold(proto, src, dst, len_for_pseudo);
    let c = checksum(&pkt[iph_len as usize..pkt.len()], c_sum);
    assert(!c == 0 <==> c == 0xFFFF) by (bit_vector);
    !c == 0
}

/// The kinds of packets GRO distinguishes.
#[derive(Debug, Clone, Copy, PartialEq, Eq, Structural)]
pub enum GroCandidateType {
    NotGRO,
    Tcp4GRO,
    Tcp6GRO,
    Udp4GRO,
    Udp6GRO,
}

/// The kind of `b` for GRO: IPv4 without options or IPv6, carrying TCP (at
/// least 40 bytes for IPv4, 60 for IPv6) or, where UDP GRO is supported,
/// UDP (at least 48 bytes for IPv6); anything shorter than 28 bytes, or
/// else, is no candidate.
pub open spec fn gro_candidate(b: Seq<u8>, can_udp_gro: bool) -> GroCandidateType {
    if b.len() < 28 {
        GroCandidateType::NotGRO
    } else if b[0] / 16 == 4 {
        if b[0] % 16 != 5 {
            GroCandidateType::NotGRO
        } else if b[9] == 6 && b.len() >= 40 {
            GroCandidateType::Tcp4GRO
        } else if b[9] == 17 && can_udp_gro {
            GroCandidateType::Udp4GRO
        } else {
            GroCandidateType::NotGRO
        }
    } else if b[0] / 16 == 6 {
        if b[6] == 6 && b.len() >= 60 {
            GroCandidateType::Tcp6GRO
        } else if b[6] == 17 && b.len() >= 48 && can_udp_gro {
            GroCandidateType::Udp6GRO
        } else {
            GroCandidateType::NotGRO
        }
    } else {
        GroCandidateType::NotGRO
    }
}

/// Classifies the packet `b` for GRO.
pub fn packet_is_gro_candidate(b: &[u8], can_udp_gro: bool) -> (r: GroCandidateType)
    ensures
        r == gro_candidate(b@, can_udp_gro),
{
    if b.len() < 28 {
        return GroCandidateType::NotGRO;
    }
    let b0 = b[0];
    assert(b0 >> 4 == b0 / 16 && b0 & 0x0F == b0 % 16) by (bit_vector);
    if b0 >> 4 == 4 {
        if b0 & 0x0F != 5 {
            return GroCandidateType::NotGRO;
        }
        let proto = b[9];
        if proto == 6 && b.len() >= 40 {
            return GroCandidateType::Tcp4GRO;
        } else if proto == 17 && can_udp_gro {
            return GroCandidateType::Udp4GRO;
        }
    } else if b0 >> 4 == 6 {
        let next = b[6];
        if next == 6 && b.len() >= 60 {
            return GroCandidateType::Tcp6GRO;
        } else if next == 17 && b.len() >= 48 && can_udp_gro {
            return GroCandidateType::Udp6GRO;
        }
    }
    GroCandidateType::NotGRO
}

/// A buffer that can report its capacity, be resized and be extended, as
/// packet coalescing needs.
pub trait ExpandBuffer {
    /// The capacity of the buffer in bytes.
    fn buf_capacity(&self) -> usize;

    /// Resizes the buffer to `new_len` bytes, filling new space with `value`.
    fn buf_resize(&mut self, new_len: usize, value: u8);

    /// Appends the bytes of `src`.
    fn buf_extend_from_slice(&mut self, src: &[u8]);
}

/// `Vec::capacity`: the number of elements the vector can hold without
/// reallocating, never below its length and, for bytes, never above
/// `isize::MAX`; its exact value is the allocator's and is left open.
#[verifier::external_body]
fn vec_capacity(v: &Vec<u8>) -> (c: usize)
    ensures
        v@.len() <= c <= isize::MAX,
{
    v.capacity()
}

impl ExpandBuffer for Vec<u8> {
    fn buf_capacity(&self) -> (c: usize)
        ensures
            self@.len() <= c <= isize::MAX,
    {
        vec_capacity(self)
    }

    fn buf_resize(&mut self, new_len: usize, value: u8)
        ensures
            new_len <= old(self)@.len() ==> final(self)@ == old(self)@.subrange(0, new_len as int),
            new_len > old(self)@.len() ==> final(self)@ == old(self)@ + Seq::new(
                (new_len - old(self)@.len()) as nat,
                |i: int| value,
            ),
    {
        let ghost o = self@;
        self.resize(new_len, value);
        proof {
            if new_len > o.len() {
                assert(self@ =~= o + Seq::new((new_len - o.len()) as nat, |i: int| value));
            }
        }
    }

    fn buf_extend_from_slice(&mut self, src: &[u8])
        ensures
            final(self)@ == old(self)@ + src@,
    {
        let ghost o = self@;
        self.extend_from_slice(src);
        assert(self@ =~= o + src@);
    }
}

/// A copy of the bytes `src[from..to]`.
fn copy_range(src: &[u8], from: usize, to: usize) -> (r: Vec<u8>)
    requires
        from <= to <= src@.len(),
    ensures
        r@ == src@.subrange(from as int, to as int),
{
    let mut r: Vec<u8> = Vec::with_capacity(to - from);
    let mut k = from;
    while k < to
        invariant
            from <= k <= to <= src@.len(),
            r@ == src@.subrange(from as int, k as int),
        decreases to - k,
    {
        r.push(src[k]);
        k = k + 1;
        assert(r@ =~= src@.subrange(from as int, k as int));
    }
    r
}

/// The outcome of an attempt to coalesce two packets.
#[derive(Debug, Clone, Copy, PartialEq, Eq, Structural)]
pub enum CoalesceResult {
    InsufficientCap,
    PSHEnding,
    ItemInvalidCSum,
    PktInvalidCSum,
    Success,
}

/// `s` with the elements at `a` and `b` exchanged.
pub open spec fn swap_at<T>(s: Seq<T>, a: int, b: int) -> Seq<T> {
    s.update(a, s[b]).update(b, s[a])
}

/// An attempt to append the UDP packet of buffer `pkt_i` to the packet
/// described by `item`: it needs room within the target buffer's capacity
/// (two offsets' worth to spare), a valid checksum on the target unless it
/// has merged packets already, and a valid checksum on the packet; then the
/// packet's payload is appended to the target and the item counts one more
/// merge.
pub open spec fn udp_coalesce(
    pkt_i: int,
    item: UdpGROItem,
    bufs: Seq<Seq<u8>>,
    caps: Seq<usize>,
    offset: int,
    is_v6: bool,
) -> (CoalesceResult, UdpGROItem, Seq<Seq<u8>>) {
    let pkt = pkt_of(bufs, pkt_i, offset);
    let idx = item.bufs_index as int;
    let target = pkt_of(bufs, idx, offset);
    let headers_len = item.iph_len + 8;
    let coalesced_len = target.len() + pkt.len() - headers_len;
    if caps[idx] < 2 * offset + coalesced_len {
        (CoalesceResult::InsufficientCap, item, bufs)
    } else if item.num_merged == 0 && (item.c_sum_known_invalid || !transport_checksum_valid(target, item.iph_len, 17, is_v6)) {
        (CoalesceResult::ItemInvalidCSum, item, bufs)
    } else if !transport_checksum_valid(pkt, item.iph_len, 17, is_v6) {
        (CoalesceResult::PktInvalidCSum, item, bufs)
    } else {
        (
            CoalesceResult::Success,
            UdpGROItem { num_merged: (item.num_merged + 1) as u16, ..item },
            bufs.update(idx, bufs[idx] + pkt.subrange(headers_len as int, pkt.len() as int)),
        )
    }
}

/// Buffers and capacities agree: every buffer fits its recorded capacity,
/// which is at most `isize::MAX`.
pub open spec fn caps_ok(bufs: Seq<Seq<u8>>, caps: Seq<usize>) -> bool {
    &&& caps.len() == bufs.len()
    &&& forall|j: int| 0 <= j < bufs.len() ==> bufs[j].len() <= #[trigger] caps[j] <= isize::MAX
}

/// Attempts to append the UDP packet of buffer `pkt_i` to the packet
/// described by `item`, as [`udp_coalesce`] says.
fn coalesce_udp_packets(
    pkt_i: usize,
    item: &mut UdpGROItem,
    bufs: &mut Vec<Vec<u8>>,
    caps: &Vec<usize>,
    bufs_offset: usize,
    is_v6: bool,
) -> (r: CoalesceResult)
    requires
        caps_ok(bytes_of(old(bufs)@), caps@),
        pkt_i < old(bufs)@.len(),
        old(item).bufs_index < old(bufs)@.len(),
        old(item).bufs_index != pkt_i,
        bufs_offset <= old(bufs)@[pkt_i as int]@.len(),
        bufs_offset <= old(bufs)@[old(item).bufs_index as int]@.len(),
        old(item).iph_len == (if is_v6 { 40int } else { 20int }),
        old(bufs)@[pkt_i as int]@.len() - bufs_offset <= u16::MAX,
        old(bufs)@[pkt_i as int]@.len() - bufs_offset >= old(item).iph_len + 8,
        old(bufs)@[old(item).bufs_index as int]@.len() - bufs_offset >= old(item).iph_len + 8,
        old(item).num_merged == 0 ==> old(bufs)@[old(item).bufs_index as int]@.len() - bufs_offset <= u16::MAX,
        old(item).num_merged < u16::MAX,
    ensures
        (r, *final(item), bytes_of(final(bufs)@)) == udp_coalesce(pkt_i as int, *old(item), bytes_of(old(bufs)@), caps@, bufs_offset as int, is_v6),
        final(bufs)@.len() == old(bufs)@.len(),
{
    let ghost b0 = bytes_of(bufs@);
    let idx = item.bufs_index as usize;
    let headers_len = item.iph_len as usize + UDP_H_LEN;
    let target_len = bufs[idx].len() - bufs_offset;
    let pkt_len = bufs[pkt_i].len() - bufs_offset;
    assert(b0[idx as int].len() <= caps@[idx as int]);
    assert(b0[pkt_i as int].len() <= caps@[pkt_i as int]);
    let coalesced_len = target_len + pkt_len - headers_len;
    if caps[idx] - bufs_offset < bufs_offset + coalesced_len {
        return CoalesceResult::InsufficientCap;
    }
    if item.num_merged == 0 {
        if item.c_sum_known_invalid {
            return CoalesceResult::ItemInvalidCSum;
        }
        let tb = &bufs[idx];
        if !checksum_valid(&tb.as_slice()[bufs_offset..tb.len()], item.iph_len, 17, is_v6) {
            return CoalesceResult::ItemInvalidCSum;
        }
    }
    let pb = &bufs[pkt_i];
    if !checksum_valid(&pb.as_slice()[bufs_offset..pb.len()], item.iph_len, 17, is_v6) {
        return CoalesceResult::PktInvalidCSum;
    }
    let payload = copy_range(pb.as_slice(), bufs_offset + headers_len, pb.len());
    assert(payload@ == pkt_of(b0, pkt_i as int, bufs_offset as int).subrange(headers_len as int, pkt_len as int));
    bufs[idx].buf_extend_from_slice(payload.as_slice());
    item.num_merged = item.num_merged + 1;
    assert(bytes_of(bufs@) =~= b0.update(idx as int, b0[idx as int] + payload@));
    CoalesceResult::Success
}

/// An attempt to coalesce the TCP packet of buffer `pkt_i` (payload size
/// `gso_size`, sequence number `seq`, PSH flag `psh_set`) with the packet
/// described by `item`, in front of it (`Prepend`) or after it (`Append`).
///
/// Both need room within the capacity of the buffer that will hold the
/// result (two offsets' worth to spare), a valid checksum on the item's
/// packet unless it has merged packets already, and a valid checksum on the
/// packet. A prepend is refused when the packet has PSH set; it appends the
/// item's payload to the packet, takes the packet's sequence number and
/// exchanges the two buffers (and their capacities), so that the item's
/// buffer index holds the result. An append carries PSH over to the item,
/// and appends the packet's payload. The item then has the larger segment
/// size and counts one more merge.
pub open spec fn tcp_coalesce(
    mode: CanCoalesce,
    pkt_i: int,
    gso_size: u16,
    seq: u32,
    psh_set: bool,
    item: TcpGROItem,
    bufs: Seq<Seq<u8>>,
    caps: Seq<usize>,
    offset: int,
    is_v6: bool,
) -> (CoalesceResult, TcpGROItem, Seq<Seq<u8>>, Seq<usize>) {
    let pkt = pkt_of(bufs, pkt_i, offset);
    let idx = item.bufs_index as int;
    let target = pkt_of(bufs, idx, offset);
    let headers_len = item.iph_len + item.tcph_len;
    let coalesced_len = target.len() + pkt.len() - headers_len;
    let grown = if gso_size > item.gso_size { gso_size } else { item.gso_size };
    if mode == CanCoalesce::Prepend {
        if caps[pkt_i] < 2 * offset + coalesced_len {
            (CoalesceResult::InsufficientCap, item, bufs, caps)
        } else if psh_set {
            (CoalesceResult::PSHEnding, item, bufs, caps)
        } else if item.num_merged == 0 && !transport_checksum_valid(target, item.iph_len, 6, is_v6) {
            (CoalesceResult::ItemInvalidCSum, item, bufs, caps)
        } else if !transport_checksum_valid(pkt, item.iph_len, 6, is_v6) {
            (CoalesceResult::PktInvalidCSum, item, bufs, caps)
        } else {
            let joined = bufs.update(pkt_i, bufs[pkt_i] + target.subrange(headers_len as int, target.len() as int));
            (
                CoalesceResult::Success,
                TcpGROItem { sent_seq: seq, gso_size: grown, num_merged: (item.num_merged + 1) as u16, ..item },
                swap_at(joined, idx, pkt_i),
                swap_at(caps, idx, pkt_i),
            )
        }
    } else {
        if caps[idx] < 2 * offset + coalesced_len {
            (CoalesceResult::InsufficientCap, item, bufs, caps)
        } else if item.num_merged == 0 && !transport_checksum_valid(target, item.iph_len, 6, is_v6) {
            (CoalesceResult::ItemInvalidCSum, item, bufs, caps)
        } else if !transport_checksum_valid(pkt, item.iph_len, 6, is_v6) {
            (CoalesceResult::PktInvalidCSum, item, bufs, caps)
        } else {
            let flagged = if psh_set {
                let at = offset + item.iph_len + 13;
                bufs.update(idx, bufs[idx].update(at, bufs[idx][at] | 0x08u8))
            } else {
                bufs
            };
            (
                CoalesceResult::Success,
                TcpGROItem {
                    psh_set: if psh_set { true } else { item.psh_set },
                    gso_size: grown,
                    num_merged: (item.num_merged + 1) as u16,
                    ..item
                },
                flagged.update(idx, flagged[idx] + pkt.subrange(headers_len as int, pkt.len() as int)),
                caps,
            )
        }
    }
}

/// Exchanges two buffers of the batch.
fn swap_bufs(bufs: &mut Vec<Vec<u8>>, a: usize, b: usize)
    requires
        a < old(bufs)@.len(),
        b < old(bufs)@.len(),
        a != b,
    ensures
        final(bufs)@ == swap_at(old(bufs)@, a as int, b as int),
{
    let mut tmp: Vec<u8> = Vec::new();
    bufs.set_and_swap(a, &mut tmp);
    bufs.set_and_swap(b, &mut tmp);
    bufs.set_and_swap(a, &mut tmp);
    assert(bufs@ =~= swap_at(old(bufs)@, a as int, b as int));
}

/// Attempts to coalesce the TCP packet of buffer `pkt_i` with the packet
/// described by `item`, as [`tcp_coalesce`] says.
fn coalesce_tcp_packets(
    mode: CanCoalesce,
    pkt_i: usize,
    gso_size: u16,
    seq: u32,
    psh_set: bool,
    item: &mut TcpGROItem,
    bufs: &mut Vec<Vec<u8>>,
    caps: &mut Vec<usize>,
    bufs_offset: usize,
    is_v6: bool,
) -> (r: CoalesceResult)
    requires
        mode != CanCoalesce::Unavailable,
        caps_ok(bytes_of(old(bufs)@), old(caps)@),
        pkt_i < old(bufs)@.len(),
        old(item).bufs_index < old(bufs)@.len(),
        old(item).bufs_index != pkt_i,
        bufs_offset <= old(bufs)@[pkt_i as int]@.len(),
        bufs_offset <= old(bufs)@[old(item).bufs_index as int]@.len(),
        old(item).iph_len == (if is_v6 { 40int } else { 20int }),
        20 <= old(item).tcph_len <= 60,
        old(bufs)@[pkt_i as int]@.len() - bufs_offset <= u16::MAX,
        old(bufs)@[pkt_i as int]@.len() - bufs_offset >= old(item).iph_len + old(item).tcph_len,
        old(bufs)@[old(item).bufs_index as int]@.len() - bufs_offset >= old(item).iph_len + old(item).tcph_len,
        old(item).num_merged == 0 ==> old(bufs)@[old(item).bufs_index as int]@.len() - bufs_offset <= u16::MAX,
        old(item).num_merged < u16::MAX,
    ensures
        (r, *final(item), bytes_of(final(bufs)@), final(caps)@) == tcp_coalesce(mode, pkt_i as int, gso_size, seq, psh_set, *old(item), bytes_of(old(bufs)@), old(caps)@, bufs_offset as int, is_v6),
        final(bufs)@.len() == old(bufs)@.len(),
{
    let ghost b0 = bytes_of(bufs@);
    let idx = item.bufs_index as usize;
    let headers_len = (item.iph_len + item.tcph_len) as usize;
    let target_len = bufs[idx].len() - bufs_offset;
    let pkt_len = bufs[pkt_i].len() - bufs_offset;
    assert(b0[idx as int].len() <= caps@[idx as int]);
    assert(b0[pkt_i as int].len() <= caps@[pkt_i as int]);
    let coalesced_len = target_len + pkt_len - headers_len;
    if mode == CanCoalesce::Prepend {
        if caps[pkt_i] - bufs_offset < bufs_offset + coalesced_len {
            return CoalesceResult::InsufficientCap;
        }
        if psh_set {
            return CoalesceResult::PSHEnding;
        }
        if item.num_merged == 0 {
            let tb = &bufs[idx];
            if !checksum_valid(&tb.as_slice()[bufs_offset..tb.len()], item.iph_len, 6, is_v6) {
                return CoalesceResult::ItemInvalidCSum;
            }
        }
        let pb = &bufs[pkt_i];
        if !checksum_valid(&pb.as_slice()[bufs_offset..pb.len()], item.iph_len, 6, is_v6) {
            return CoalesceResult::PktInvalidCSum;
        }
        item.sent_seq = seq;
        let tb = &bufs[idx];
        let tail = copy_range(tb.as_slice(), bufs_offset + headers_len, tb.len());
        assert(tail@ == pkt_of(b0, idx as int, bufs_offset as int).subrange(headers_len as int, target_len as int));
        bufs[pkt_i].buf_extend_from_slice(tail.as_slice());
        assert(bytes_of(bufs@) =~= b0.update(pkt_i as int, b0[pkt_i as int] + tail@));
        let ghost joined = bytes_of(bufs@);
        swap_bufs(bufs, idx, pkt_i);
        assert(bytes_of(bufs@) =~= swap_at(joined, idx as int, pkt_i as int));
        let cap_a = caps[idx];
        let cap_b = caps[pkt_i];
        caps.set(idx, cap_b);
        caps.set(pkt_i, cap_a);
        assert(caps@ =~= swap_at(old(caps)@, idx as int, pkt_i as int));
    } else {
        if caps[idx] - bufs_offset < bufs_offset + coalesced_len {
            return CoalesceResult::InsufficientCap;
        }
        if item.num_merged == 0 {
            let tb = &bufs[idx];
            if !checksum_valid(&tb.as_slice()[bufs_offset..tb.len()], item.iph_len, 6, is_v6) {
                return CoalesceResult::ItemInvalidCSum;
            }
        }
        let pb = &bufs[pkt_i];
        if !checksum_valid(&pb.as_slice()[bufs_offset..pb.len()], item.iph_len, 6, is_v6) {
            return CoalesceResult::PktInvalidCSum;
        }
        let payload = copy_range(pb.as_slice(), bufs_offset + headers_len, pb.len());
        assert(payload@ == pkt_of(b0, pkt_i as int, bufs_offset as int).subrange(headers_len as int, pkt_len as int));
        if psh_set {
            item.psh_set = psh_set;
            let at = bufs_offset + item.iph_len as usize + TCP_FLAGS_OFFSET;
            let f = bufs[idx][at];
            bufs[idx].set(at, f | TCP_FLAG_PSH);
        }
        let ghost flagged = bytes_of(bufs@);
        assert(flagged =~= (if psh_set {
            let at = bufs_offset + item.iph_len + 13;
            b0.update(idx as int, b0[idx as int].update(at, b0[idx as int][at] | 0x08u8))
        } else {
            b0
        }));
        bufs[idx].buf_extend_from_slice(payload.as_slice());
        assert(bytes_of(bufs@) =~= flagged.update(idx as int, flagged[idx as int] + payload@));
    }
    if gso_size > item.gso_size {
        item.gso_size = gso_size;
    }
    item.num_merged = item.num_merged + 1;
    CoalesceResult::Success
}

/// The outcome of evaluating one packet for GRO.
#[derive(Debug, Clone, Copy, PartialEq, Eq, Structural)]
pub enum GroResult {
    /// No action was taken.
    Noop,
    /// The packet was inserted into the table.
    TableInsert,
    /// The packet was coalesced with another one in the table.
    Coalesced,
}

/// The header facts of a TCP packet that GRO uses.
#[derive(Debug, Clone, Copy, PartialEq, Eq, Structural)]
pub struct TcpSegmentInfo {
    pub iph_len: u8,
    pub tcph_len: u8,
    pub psh_set: bool,
    pub gso_size: u16,
    pub seq: u32,
}

/// Whether the IPv4 header of `pkt` marks a fragment: More Fragments set, or
/// a nonzero fragment offset.
pub open spec fn ipv4_fragmented(pkt: Seq<u8>) -> bool {
    pkt[6] & 0x20u8 != 0 || pkt[6] % 32 != 0 || pkt[7] != 0
}

/// The header facts of `pkt` if it can take part in TCP GRO: at most 65535
/// bytes, a length field that matches its length, a TCP header of 20 to 60
/// bytes within it, no IPv4 fragment, only ACK (or ACK and PSH) set, and a
/// nonempty payload.
pub open spec fn tcp_gro_parse(pkt: Seq<u8>, is_v6: bool) -> Option<TcpSegmentInfo> {
    let iph: int = if is_v6 { 40 } else { (pkt[0] % 16) * 4 };
    if pkt.len() > u16::MAX {
        None
    } else if is_v6 && be16_at(pkt, 4) != pkt.len() - 40 {
        None
    } else if !is_v6 && be16_at(pkt, 2) != pkt.len() {
        None
    } else if pkt.len() < iph {
        None
    } else {
        let tcph: int = (pkt[iph + 12] / 16) * 4;
        let flags = pkt[iph + 13];
        if tcph < 20 || tcph > 60 {
            None
        } else if pkt.len() < iph + tcph {
            None
        } else if !is_v6 && ipv4_fragmented(pkt) {
            None
        } else if flags != 0x10 && flags != 0x18 {
            None
        } else if pkt.len() - tcph - iph < 1 {
            None
        } else {
            Some(TcpSegmentInfo {
                iph_len: iph as u8,
                tcph_len: tcph as u8,
                psh_set: flags != 0x10,
                gso_size: (pkt.len() - tcph - iph) as u16,
                seq: be32_at(pkt, iph + 4) as u32,
            })
        }
    }
}

/// The length a TCP packet of `is_v6` is at least, as a GRO candidate.
pub open spec fn tcp_candidate_shape(pkt: Seq<u8>, is_v6: bool) -> bool {
    if is_v6 {
        pkt.len() >= 60
    } else {
        pkt.len() >= 40 && pkt[0] % 16 == 5
    }
}

/// The scan of the items of flow `f` from position `j - 1` down to 0 for
/// one that the TCP packet of buffer `pkt_i` (with header facts `info`) can
/// be coalesced with: an item it cannot be coalesced with is passed over,
/// as is one that lacks room or would end in PSH; one with an invalid
/// checksum is dropped; a packet with an invalid checksum ends the scan
/// with no action; a successful coalescing ends it. When the scan runs out,
/// the packet joins the flow.
pub open spec fn tcp_scan(
    bufs: Seq<Seq<u8>>,
    caps: Seq<usize>,
    flows: Seq<(TcpFlowKey, Seq<TcpGROItem>)>,
    f: int,
    j: int,
    pkt_i: int,
    offset: int,
    info: TcpSegmentInfo,
    is_v6: bool,
) -> (Seq<Seq<u8>>, Seq<usize>, Seq<(TcpFlowKey, Seq<TcpGROItem>)>, GroResult)
    decreases j,
{
    let pkt = pkt_of(bufs, pkt_i, offset);
    let (so, al) = addr_layout(is_v6);
    if j <= 0 {
        (
            bufs,
            caps,
            flows_insert(
                flows,
                tcp_flow_key(pkt, so, so + al, info.iph_len as int),
                tcp_item(pkt, so, so + al, info.iph_len as int, info.tcph_len as int, pkt_i),
            ),
            GroResult::TableInsert,
        )
    } else {
        let k = j - 1;
        let items = flows[f].1;
        let item = items[k];
        let can = tcp_coalescible(pkt, info.iph_len, info.tcph_len, info.seq, info.psh_set, info.gso_size, item, pkt_of(bufs, item.bufs_index as int, offset));
        if can == CanCoalesce::Unavailable {
            tcp_scan(bufs, caps, flows, f, k, pkt_i, offset, info, is_v6)
        } else {
            let (res, item2, bufs2, caps2) = tcp_coalesce(can, pkt_i, info.gso_size, info.seq, info.psh_set, item, bufs, caps, offset, is_v6);
            if res == CoalesceResult::Success {
                (bufs2, caps2, flows.update(f, (flows[f].0, items.update(k, item2))), GroResult::Coalesced)
            } else if res == CoalesceResult::ItemInvalidCSum {
                tcp_scan(bufs, caps, flows.update(f, (flows[f].0, items.remove(k))), f, k, pkt_i, offset, info, is_v6)
            } else if res == CoalesceResult::PktInvalidCSum {
                (bufs, caps, flows, GroResult::Noop)
            } else {
                tcp_scan(bufs, caps, flows, f, k, pkt_i, offset, info, is_v6)
            }
        }
    }
}

/// TCP GRO of the packet of buffer `pkt_i`: a packet that [`tcp_gro_parse`]
/// refuses is left alone; one of a new flow joins the table; otherwise the
/// items of its flow are scanned as [`tcp_scan`] says.
pub open spec fn tcp_gro_spec(
    bufs: Seq<Seq<u8>>,
    caps: Seq<usize>,
    flows: Seq<(TcpFlowKey, Seq<TcpGROItem>)>,
    offset: int,
    pkt_i: int,
    is_v6: bool,
) -> (Seq<Seq<u8>>, Seq<usize>, Seq<(TcpFlowKey, Seq<TcpGROItem>)>, GroResult) {
    let pkt = pkt_of(bufs, pkt_i, offset);
    let (so, al) = addr_layout(is_v6);
    match tcp_gro_parse(pkt, is_v6) {
        None => (bufs, caps, flows, GroResult::Noop),
        Some(info) => {
            let key = tcp_flow_key(pkt, so, so + al, info.iph_len as int);
            match flow_position(flows, key) {
                None => (
                    bufs,
                    caps,
                    flows_insert(flows, key, tcp_item(pkt, so, so + al, info.iph_len as int, info.tcph_len as int, pkt_i)),
                    GroResult::TableInsert,
                ),
                Some(f) => tcp_scan(bufs, caps, flows, f, flows[f].1.len() as int, pkt_i, offset, info, is_v6),
            }
        },
    }
}

/// What a tracked TCP item keeps true of the batch: it belongs to the flow
/// of `key`, refers to an earlier buffer that holds a packet with its
/// headers, has a nonzero segment size and fewer merges than packets, and
/// while nothing is merged into it its packet is at most 65535 bytes.
pub open spec fn tcp_item_ok(it: TcpGROItem, key: TcpFlowKey, bufs: Seq<Seq<u8>>, offset: int, limit: int) -> bool {
    let idx = it.bufs_index as int;
    &&& it.key == key
    &&& 0 <= idx < limit
    &&& idx < bufs.len()
    &&& offset <= bufs[idx].len()
    &&& it.iph_len == (if key.is_v6 { 40int } else { 20int })
    &&& 20 <= it.tcph_len <= 60
    &&& pkt_of(bufs, idx, offset).len() >= it.iph_len + it.tcph_len
    &&& it.gso_size >= 1
    &&& it.num_merged <= limit
    &&& (it.num_merged == 0 ==> pkt_of(bufs, idx, offset).len() <= u16::MAX)
}

/// Every item of every TCP flow is as [`tcp_item_ok`] says.
pub open spec fn tcp_flows_ok(flows: Seq<(TcpFlowKey, Seq<TcpGROItem>)>, bufs: Seq<Seq<u8>>, offset: int, limit: int) -> bool {
    forall|f: int, k: int| 0 <= f < flows.len() && 0 <= k < flows[f].1.len() ==> #[trigger] tcp_item_ok(flows[f].1[k], flows[f].0, bufs, offset, limit)
}

/// Whether some TCP item refers to buffer `j`.
pub open spec fn tcp_uses(flows: Seq<(TcpFlowKey, Seq<TcpGROItem>)>, j: int) -> bool {
    exists|f: int, k: int| 0 <= f < flows.len() && 0 <= k < flows[f].1.len() && #[trigger] flows[f].1[k].bufs_index == j
}

/// No two TCP items refer to the same buffer.
pub open spec fn tcp_indices_distinct(flows: Seq<(TcpFlowKey, Seq<TcpGROItem>)>) -> bool {
    forall|f1: int, k1: int, f2: int, k2: int|
        0 <= f1 < flows.len() && 0 <= k1 < flows[f1].1.len() && 0 <= f2 < flows.len() && 0 <= k2 < flows[f2].1.len() && (f1 != f2 || k1 != k2)
            ==> #[trigger] flows[f1].1[k1].bufs_index != #[trigger] flows[f2].1[k2].bufs_index
}

impl Default for TcpGROTable {
    /// An empty table, as [`TcpGROTable::new`] makes.
    fn default() -> (t: TcpGROTable)
        ensures
            t.wf(),
            t.flows() == Seq::<(TcpFlowKey, Seq<TcpGROItem>)>::empty(),
    {
        TcpGROTable::new()
    }
}

impl TcpGROTable {
    /// A well-formed table holds no key twice.
    pub proof fn lemma_keys_distinct(&self)
        requires
            self.wf(),
        ensures
            keys_distinct(self.flows()),
    {
    }

    pub(crate) fn flow_count(&self) -> (n: usize)
        requires
            self.wf(),
        ensures
            n == self.flows().len(),
    {
        self.keys.len()
    }

    pub(crate) fn flow_len(&self, f: usize) -> (n: usize)
        requires
            self.wf(),
            f < self.flows().len(),
        ensures
            n == self.flows()[f as int].1.len(),
    {
        self.items[f].len()
    }

    pub(crate) fn item_at(&self, f: usize, k: usize) -> (it: TcpGROItem)
        requires
            self.wf(),
            f < self.flows().len(),
            k < self.flows()[f as int].1.len(),
        ensures
            it == self.flows()[f as int].1[k as int],
    {
        self.items[f][k]
    }

    fn set_item(&mut self, f: usize, k: usize, it: TcpGROItem)
        requires
            old(self).wf(),
            f < old(self).flows().len(),
            k < old(self).flows()[f as int].1.len(),
        ensures
            final(self).wf(),
            final(self).flows() == old(self).flows().update(f as int, (old(self).flows()[f as int].0, old(self).flows()[f as int].1.update(k as int, it))),
    {
        let ghost f0 = self.flows();
        self.items[f].set(k, it);
        assert(self.flows() =~= f0.update(f as int, (f0[f as int].0, f0[f as int].1.update(k as int, it))));
        assert(keys_distinct(self.flows())) by {
            assert forall|a: int, b: int| 0 <= a < b < self.flows().len() implies self.flows()[a].0 != self.flows()[b].0 by {
                assert(self.flows()[a].0 == f0[a].0);
                assert(self.flows()[b].0 == f0[b].0);
            }
        }
    }

    fn remove_item(&mut self, f: usize, k: usize)
        requires
            old(self).wf(),
            f < old(self).flows().len(),
            k < old(self).flows()[f as int].1.len(),
        ensures
            final(self).wf(),
            final(self).flows() == old(self).flows().update(f as int, (old(self).flows()[f as int].0, old(self).flows()[f as int].1.remove(k as int))),
    {
        let ghost f0 = self.flows();
        self.items[f].remove(k);
        assert(self.flows() =~= f0.update(f as int, (f0[f as int].0, f0[f as int].1.remove(k as int))));
        assert(keys_distinct(self.flows())) by {
            assert forall|a: int, b: int| 0 <= a < b < self.flows().len() implies self.flows()[a].0 != self.flows()[b].0 by {
                assert(self.flows()[a].0 == f0[a].0);
                assert(self.flows()[b].0 == f0[b].0);
            }
        }
    }
}

/// The header facts of the TCP packet `pkt`, as [`tcp_gro_parse`] says.
fn parse_tcp_segment(pkt: &[u8], is_v6: bool) -> (r: Option<TcpSegmentInfo>)
    requires
        tcp_candidate_shape(pkt@, is_v6),
    ensures
        r == tcp_gro_parse(pkt@, is_v6),
{
    let len = pkt.len();
    if len > 0xFFFF {
        return None;
    }
    let b0 = pkt[0];
    assert(b0 & 0x0F == b0 % 16) by (bit_vector);
    let mut iph_len = ((b0 & 0x0F) * 4) as usize;
    if is_v6 {
        iph_len = 40;
        let ipv6_h_payload_len = read_be16(pkt, 4) as usize;
        if ipv6_h_payload_len != len - iph_len {
            return None;
        }
    } else {
        let total_len = read_be16(pkt, 2) as usize;
        if total_len != len {
            return None;
        }
    }
    if len < iph_len {
        return None;
    }
    let th = pkt[iph_len + 12];
    assert(th >> 4 == th / 16) by (bit_vector);
    let tcph_len = ((th >> 4) * 4) as usize;
    if !(20 <= tcph_len && tcph_len <= 60) {
        return None;
    }
    if len < iph_len + tcph_len {
        return None;
    }
    if !is_v6 {
        let b6 = pkt[6];
        assert((b6 << 3u8 != 0) == (b6 % 32 != 0)) by (bit_vector);
        if b6 & 0x20 != 0 || b6 << 3u8 != 0 || pkt[7] != 0 {
            return None;
        }
    }
    let tcp_flags = pkt[iph_len + TCP_FLAGS_OFFSET];
    assert(0x10u8 | 0x08u8 == 0x18u8) by (bit_vector);
    let mut psh_set = false;
    if tcp_flags != 0x10 {
        if tcp_flags != 0x10 | 0x08 {
            return None;
        }
        psh_set = true;
    }
    let gso_size = (len - tcph_len - iph_len) as u16;
    if gso_size < 1 {
        return None;
    }
    let seq = read_be32(pkt, iph_len + 4);
    Some(TcpSegmentInfo { iph_len: iph_len as u8, tcph_len: tcph_len as u8, psh_set, gso_size, seq })
}

/// Removing an item keeps the others as they were.
pub(crate) proof fn lemma_tcp_flows_ok_remove(flows: Seq<(TcpFlowKey, Seq<TcpGROItem>)>, bufs: Seq<Seq<u8>>, offset: int, limit: int, f: int, k: int)
    requires
        tcp_flows_ok(flows, bufs, offset, limit),
        0 <= f < flows.len(),
        0 <= k < flows[f].1.len(),
    ensures
        tcp_flows_ok(flows.update(f, (flows[f].0, flows[f].1.remove(k))), bufs, offset, limit),
{
    let g = flows.update(f, (flows[f].0, flows[f].1.remove(k)));
    assert forall|a: int, c: int| 0 <= a < g.len() && 0 <= c < g[a].1.len() implies #[trigger] tcp_item_ok(g[a].1[c], g[a].0, bufs, offset, limit) by {
        if a == f {
            if c < k {
                assert(g[a].1[c] == flows[f].1[c]);
                assert(tcp_item_ok(flows[f].1[c], flows[f].0, bufs, offset, limit));
            } else {
                assert(g[a].1[c] == flows[f].1[c + 1]);
                assert(tcp_item_ok(flows[f].1[c + 1], flows[f].0, bufs, offset, limit));
            }
        } else {
            assert(tcp_item_ok(flows[a].1[c], flows[a].0, bufs, offset, limit));
        }
    }
}

/// TCP GRO of the packet of buffer `pkt_i`, as [`tcp_gro_spec`] says.
#[verifier::rlimit(40)]
pub(crate) fn tcp_gro(
    bufs: &mut Vec<Vec<u8>>,
    caps: &mut Vec<usize>,
    offset: usize,
    pkt_i: usize,
    table: &mut TcpGROTable,
    is_v6: bool,
) -> (r: GroResult)
    requires
        old(table).wf(),
        caps_ok(bytes_of(old(bufs)@), old(caps)@),
        old(bufs)@.len() <= u16::MAX,
        pkt_i < old(bufs)@.len(),
        offset <= old(bufs)@[pkt_i as int]@.len(),
        tcp_candidate_shape(pkt_of(bytes_of(old(bufs)@), pkt_i as int, offset as int), is_v6),
        tcp_flows_ok(old(table).flows(), bytes_of(old(bufs)@), offset as int, pkt_i as int),
    ensures
        final(table).wf(),
        final(bufs)@.len() == old(bufs)@.len(),
        (bytes_of(final(bufs)@), final(caps)@, final(table).flows(), r) == tcp_gro_spec(bytes_of(old(bufs)@), old(caps)@, old(table).flows(), offset as int, pkt_i as int, is_v6),
{
    let ghost b0 = bytes_of(bufs@);
    let ghost goal = tcp_gro_spec(b0, caps@, table.flows(), offset as int, pkt_i as int, is_v6);
    let n = bufs.len();
    let info = {
        let pb = &bufs[pkt_i];
        let pkt = &pb.as_slice()[offset..pb.len()];
        assert(pkt@ == pkt_of(b0, pkt_i as int, offset as int));
        match parse_tcp_segment(pkt, is_v6) {
            Some(info) => info,
            None => return GroResult::Noop,
        }
    };
    let (src_addr_offset, addr_len) = if is_v6 {
        (IPV6_SRC_ADDR_OFFSET, 16usize)
    } else {
        (IPV4_SRC_ADDR_OFFSET, 4usize)
    };
    let iph_len = info.iph_len as usize;
    let tcph_len = info.tcph_len as usize;
    let found = {
        let pb = &bufs[pkt_i];
        let pkt = &pb.as_slice()[offset..pb.len()];
        table.lookup_or_insert(pkt, src_addr_offset, src_addr_offset + addr_len, iph_len, tcph_len, pkt_i)
    };
    let f = match found {
        Some(f) => f,
        None => return GroResult::TableInsert,
    };
    let ghost key = table.flows()[f as int].0;
    proof {
        let pkt = pkt_of(b0, pkt_i as int, offset as int);
        let k0 = tcp_flow_key(pkt, src_addr_offset as int, (src_addr_offset + addr_len) as int, iph_len as int);
        assert(flow_position(table.flows(), k0) == Some(f as int));
        assert(exists|c: int| 0 <= c < table.flows().len() && table.flows()[c].0 == k0);
        assert(key == k0);
        assert(goal == tcp_scan(b0, caps@, table.flows(), f as int, table.flows()[f as int].1.len() as int, pkt_i as int, offset as int, info, is_v6));
    }
    let mut j = table.flow_len(f);
    while j > 0
        invariant
            table.wf(),
            f < table.flows().len(),
            j <= table.flows()[f as int].1.len(),
            table.flows()[f as int].0 == key,
            key.is_v6 == is_v6,
            n == bufs@.len(),
            n <= u16::MAX,
            pkt_i < n,
                bytes_of(bufs@) == b0,
            caps_ok(b0, caps@),
            offset <= b0[pkt_i as int].len(),
            tcp_gro_parse(pkt_of(b0, pkt_i as int, offset as int), is_v6) == Some(info),
            info.iph_len == (if is_v6 { 40int } else { 20int }),
            iph_len == info.iph_len,
            tcph_len == info.tcph_len,
            tcp_flows_ok(table.flows(), b0, offset as int, pkt_i as int),
            tcp_scan(b0, caps@, table.flows(), f as int, j as int, pkt_i as int, offset as int, info, is_v6) == goal,
            b0 == bytes_of(old(bufs)@),
            n == old(bufs)@.len(),
            goal == tcp_gro_spec(b0, old(caps)@, old(table).flows(), offset as int, pkt_i as int, is_v6),
        decreases j,
    {
        let k = j - 1;
        let mut item = table.item_at(f, k);
        assert(tcp_item_ok(table.flows()[f as int].1[k as int], table.flows()[f as int].0, b0, offset as int, pkt_i as int));
        let can = {
            let pb = &bufs[pkt_i];
            let pkt = &pb.as_slice()[offset..pb.len()];
            tcp_packets_can_coalesce(pkt, info.iph_len, info.tcph_len, info.seq, info.psh_set, info.gso_size, &item, bufs, offset)
        };
        if can != CanCoalesce::Unavailable {
            let result = coalesce_tcp_packets(can, pkt_i, info.gso_size, info.seq, info.psh_set, &mut item, bufs, caps, offset, is_v6);
            if result == CoalesceResult::Success {
                table.set_item(f, k, item);
                return GroResult::Coalesced;
            } else if result == CoalesceResult::ItemInvalidCSum {
                proof {
                    lemma_tcp_flows_ok_remove(table.flows(), b0, offset as int, pkt_i as int, f as int, k as int);
                }
                table.remove_item(f, k);
            } else if result == CoalesceResult::PktInvalidCSum {
                return GroResult::Noop;
            }
        }
        j = k;
    }
    let pb = &bufs[pkt_i];
    let pkt = &pb.as_slice()[offset..pb.len()];
    table.insert(pkt, src_addr_offset, src_addr_offset + addr_len, iph_len, tcph_len, pkt_i);
    GroResult::TableInsert
}

/// The IP header length and payload size of `pkt` if it can take part in
/// UDP GRO: at most 65535 bytes, a length field that matches its length, a
/// UDP header within it, no IPv4 fragment, and a nonempty payload.
pub open spec fn udp_gro_parse(pkt: Seq<u8>, is_v6: bool) -> Option<(u8, u16)> {
    let iph: int = if is_v6 { 40 } else { (pkt[0] % 16) * 4 };
    if pkt.len() > u16::MAX {
        None
    } else if is_v6 && be16_at(pkt, 4) != pkt.len() - 40 {
        None
    } else if !is_v6 && be16_at(pkt, 2) != pkt.len() {
        None
    } else if pkt.len() < iph || pkt.len() < iph + 8 {
        None
    } else if !is_v6 && ipv4_fragmented(pkt) {
        None
    } else if pkt.len() - 8 - iph < 1 {
        None
    } else {
        Some((iph as u8, (pkt.len() - 8 - iph) as u16))
    }
}

/// The length a UDP packet of `is_v6` is at least, as a GRO candidate.
pub open spec fn udp_candidate_shape(pkt: Seq<u8>, is_v6: bool) -> bool {
    if is_v6 {
        pkt.len() >= 48
    } else {
        pkt.len() >= 28 && pkt[0] % 16 == 5
    }
}

/// UDP GRO of the packet of buffer `pkt_i`: a packet that
/// [`udp_gro_parse`] refuses is left alone; one of a new flow joins the
/// table; otherwise only the last item of its flow is tried, so that
/// packets are not reordered. A successful append coalesces the packet;
/// otherwise it joins the flow, marked as having an invalid checksum where
/// that was the reason.
pub open spec fn udp_gro_spec(
    bufs: Seq<Seq<u8>>,
    caps: Seq<usize>,
    flows: Seq<(UdpFlowKey, Seq<UdpGROItem>)>,
    offset: int,
    pkt_i: int,
    is_v6: bool,
) -> (Seq<Seq<u8>>, Seq<usize>, Seq<(UdpFlowKey, Seq<UdpGROItem>)>, GroResult) {
    let pkt = pkt_of(bufs, pkt_i, offset);
    let (so, al) = addr_layout(is_v6);
    match udp_gro_parse(pkt, is_v6) {
        None => (bufs, caps, flows, GroResult::Noop),
        Some((iph, gso)) => {
            let key = udp_flow_key(pkt, so, so + al, iph as int);
            let joined = |invalid: bool| flows_insert(flows, key, udp_item(pkt, so, so + al, iph as int, pkt_i, invalid));
            match flow_position(flows, key) {
                None => (bufs, caps, joined(false), GroResult::TableInsert),
                Some(f) => {
                    let items = flows[f].1;
                    let last = items[items.len() - 1];
                    let can = udp_coalescible(pkt, iph, gso, last, pkt_of(bufs, last.bufs_index as int, offset));
                    if can == CanCoalesce::Append {
                        let (res, item2, bufs2) = udp_coalesce(pkt_i, last, bufs, caps, offset, is_v6);
                        if res == CoalesceResult::Success {
                            (bufs2, caps, flows.update(f, (flows[f].0, items.update(items.len() - 1, item2))), GroResult::Coalesced)
                        } else if res == CoalesceResult::PktInvalidCSum {
                            (bufs, caps, joined(true), GroResult::TableInsert)
                        } else {
                            (bufs, caps, joined(false), GroResult::TableInsert)
                        }
                    } else {
                        (bufs, caps, joined(false), GroResult::TableInsert)
                    }
                },
            }
        },
    }
}

/// What a tracked UDP item keeps true of the batch, as [`tcp_item_ok`] for
/// TCP.
pub open spec fn udp_item_ok(it: UdpGROItem, key: UdpFlowKey, bufs: Seq<Seq<u8>>, offset: int, limit: int) -> bool {
    let idx = it.bufs_index as int;
    &&& it.key == key
    &&& 0 <= idx < limit
    &&& idx < bufs.len()
    &&& offset <= bufs[idx].len()
    &&& it.iph_len == (if key.is_v6 { 40int } else { 20int })
    &&& pkt_of(bufs, idx, offset).len() >= it.iph_len + 8
    &&& it.gso_size >= 1
    &&& it.num_merged <= limit
    &&& (it.num_merged == 0 ==> pkt_of(bufs, idx, offset).len() <= u16::MAX)
}

/// Every UDP flow has items, each as [`udp_item_ok`] says.
pub open spec fn udp_flows_ok(flows: Seq<(UdpFlowKey, Seq<UdpGROItem>)>, bufs: Seq<Seq<u8>>, offset: int, limit: int) -> bool {
    &&& forall|f: int| 0 <= f < flows.len() ==> #[trigger] flows[f].1.len() >= 1
    &&& forall|f: int, k: int| 0 <= f < flows.len() && 0 <= k < flows[f].1.len() ==> #[trigger] udp_item_ok(flows[f].1[k], flows[f].0, bufs, offset, limit)
}

impl Default for UdpGROTable {
    /// An empty table, as [`UdpGROTable::new`] makes.
    fn default() -> (t: UdpGROTable)
        ensures
            t.wf(),
            t.flows() == Seq::<(UdpFlowKey, Seq<UdpGROItem>)>::empty(),
    {
        UdpGROTable::new()
    }
}

impl UdpGROTable {
    /// A well-formed table holds no key twice.
    pub proof fn lemma_keys_distinct(&self)
        requires
            self.wf(),
        ensures
            keys_distinct(self.flows()),
    {
    }

    pub(crate) fn flow_count(&self) -> (n: usize)
        requires
            self.wf(),
        ensures
            n == self.flows().len(),
    {
        self.keys.len()
    }

    pub(crate) fn flow_len(&self, f: usize) -> (n: usize)
        requires
            self.wf(),
            f < self.flows().len(),
        ensures
            n == self.flows()[f as int].1.len(),
    {
        self.items[f].len()
    }

    pub(crate) fn item_at(&self, f: usize, k: usize) -> (it: UdpGROItem)
        requires
            self.wf(),
            f < self.flows().len(),
            k < self.flows()[f as int].1.len(),
        ensures
            it == self.flows()[f as int].1[k as int],
    {
        self.items[f][k]
    }

    fn set_item(&mut self, f: usize, k: usize, it: UdpGROItem)
        requires
            old(self).wf(),
            f < old(self).flows().len(),
            k < old(self).flows()[f as int].1.len(),
        ensures
            final(self).wf(),
            final(self).flows() == old(self).flows().update(f as int, (old(self).flows()[f as int].0, old(self).flows()[f as int].1.update(k as int, it))),
    {
        let ghost f0 = self.flows();
        self.items[f].set(k, it);
        assert(self.flows() =~= f0.update(f as int, (f0[f as int].0, f0[f as int].1.update(k as int, it))));
        assert(keys_distinct(self.flows())) by {
            assert forall|a: int, b: int| 0 <= a < b < self.flows().len() implies self.flows()[a].0 != self.flows()[b].0 by {
                assert(self.flows()[a].0 == f0[a].0);
                assert(self.flows()[b].0 == f0[b].0);
            }
        }
    }
}

/// The IP header length and payload size of the UDP packet `pkt`, as
/// [`udp_gro_parse`] says.
fn parse_udp_datagram(pkt: &[u8], is_v6: bool) -> (r: Option<(u8, u16)>)
    requires
        udp_candidate_shape(pkt@, is_v6),
    ensures
        r == udp_gro_parse(pkt@, is_v6),
{
    let len = pkt.len();
    if len > 0xFFFF {
        return None;
    }
    let b0 = pkt[0];
    assert(b0 & 0x0F == b0 % 16) by (bit_vector);
    let mut iph_len = ((b0 & 0x0F) * 4) as usize;
    if is_v6 {
        iph_len = 40;
        let ipv6_payload_len = read_be16(pkt, 4) as usize;
        if ipv6_payload_len != len - iph_len {
            return None;
        }
    } else {
        let total_len = read_be16(pkt, 2) as usize;
        if total_len != len {
            return None;
        }
    }
    if len < iph_len || len < iph_len + UDP_H_LEN {
        return None;
    }
    if !is_v6 {
        let b6 = pkt[6];
        assert((b6 << 3u8 != 0) == (b6 % 32 != 0)) by (bit_vector);
        if b6 & 0x20 != 0 || b6 << 3u8 != 0 || pkt[7] != 0 {
            return None;
        }
    }
    let gso_size = (len - UDP_H_LEN - iph_len) as u16;
    if gso_size < 1 {
        return None;
    }
    Some((iph_len as u8, gso_size))
}

/// UDP GRO of the packet of buffer `pkt_i`, as [`udp_gro_spec`] says.
#[verifier::rlimit(40)]
pub(crate) fn udp_gro(
    bufs: &mut Vec<Vec<u8>>,
    caps: &Vec<usize>,
    offset: usize,
    pkt_i: usize,
    table: &mut UdpGROTable,
    is_v6: bool,
) -> (r: GroResult)
    requires
        old(table).wf(),
        caps_ok(bytes_of(old(bufs)@), caps@),
        old(bufs)@.len() <= u16::MAX,
        pkt_i < old(bufs)@.len(),
        offset <= old(bufs)@[pkt_i as int]@.len(),
        udp_candidate_shape(pkt_of(bytes_of(old(bufs)@), pkt_i as int, offset as int), is_v6),
        udp_flows_ok(old(table).flows(), bytes_of(old(bufs)@), offset as int, pkt_i as int),
    ensures
        final(table).wf(),
        final(bufs)@.len() == old(bufs)@.len(),
        (bytes_of(final(bufs)@), caps@, final(table).flows(), r) == udp_gro_spec(bytes_of(old(bufs)@), caps@, old(table).flows(), offset as int, pkt_i as int, is_v6),
{
    let ghost b0 = bytes_of(bufs@);
    let ghost flows0 = table.flows();
    let (iph_len, gso_size) = {
        let pb = &bufs[pkt_i];
        let pkt = &pb.as_slice()[offset..pb.len()];
        assert(pkt@ == pkt_of(b0, pkt_i as int, offset as int));
        match parse_udp_datagram(pkt, is_v6) {
            Some(x) => x,
            None => return GroResult::Noop,
        }
    };
    let (src_addr_offset, addr_len) = if is_v6 {
        (IPV6_SRC_ADDR_OFFSET, 16usize)
    } else {
        (IPV4_SRC_ADDR_OFFSET, 4usize)
    };
    let found = {
        let pb = &bufs[pkt_i];
        let pkt = &pb.as_slice()[offset..pb.len()];
        table.lookup_or_insert(pkt, src_addr_offset, src_addr_offset + addr_len, iph_len as usize, pkt_i)
    };
    let f = match found {
        Some(f) => f,
        None => return GroResult::TableInsert,
    };
    proof {
        let pkt = pkt_of(b0, pkt_i as int, offset as int);
        let k0 = udp_flow_key(pkt, src_addr_offset as int, (src_addr_offset + addr_len) as int, iph_len as int);
        assert(exists|c: int| 0 <= c < table.flows().len() && table.flows()[c].0 == k0);
        assert(table.flows()[f as int].0 == k0);
    }
    let items_len = table.flow_len(f);
    assert(items_len >= 1);
    let mut item = table.item_at(f, items_len - 1);
    assert(udp_item_ok(table.flows()[f as int].1[items_len - 1], table.flows()[f as int].0, b0, offset as int, pkt_i as int));
    let can = {
        let pb = &bufs[pkt_i];
        let pkt = &pb.as_slice()[offset..pb.len()];
        udp_packets_can_coalesce(pkt, iph_len, gso_size, &item, bufs, offset)
    };
    let mut pkt_csum_known_invalid = false;
    if can == CanCoalesce::Append {
        let result = coalesce_udp_packets(pkt_i, &mut item, bufs, caps, offset, is_v6);
        if result == CoalesceResult::Success {
            table.set_item(f, items_len - 1, item);
            return GroResult::Coalesced;
        } else if result == CoalesceResult::PktInvalidCSum {
            pkt_csum_known_invalid = true;
        }
    }
    let pb = &bufs[pkt_i];
    let pkt = &pb.as_slice()[offset..pb.len()];
    table.insert(pkt, src_addr_offset, src_addr_offset + addr_len, iph_len as usize, pkt_i, pkt_csum_known_invalid);
    GroResult::TableInsert
}
} // verus!
