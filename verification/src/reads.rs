//! Reads that take several registers: the status of an adapter, the rates of its
//! network and the nodes on it.
//!
//! Each is a sequence of steps. A step says which register to read next; its
//! words, or the error of reading it, are handed to the next step.

use crate::client::{EMPTY_BODY, ZERO_ARG_BODY};
use crate::decode::{
    decode_node, get, is_present, lemma_present_nodes, node_views, nodes_in, nodes_of,
    present_nodes, word, word_views, DeviceStatus, DeviceStatusView, MocaNode, MocaNodeView,
    MAX_NODES,
};
use crate::error::{outcome_is, ErrorView, Result};
use crate::ms::{self, MsCmd};
use crate::phy::{
    decode_fmr, law_one_link_per_node, Layout, PhyLink, PhyRates, PhyRatesView,
};
use crate::text::{decimal, decimal_text};
use vstd::prelude::*;

verus! {

/// What follows: a register to read, or the outcome.
pub enum Next<T> {
    Read { cmd: MsCmd, body: String },
    Done(Result<T>),
}

/// A [`Next`] with its texts as character sequences.
#[verifier::ext_equal]
pub enum NextView<V> {
    Read { cmd: MsCmd, body: Seq<char> },
    Done(core::result::Result<V, ErrorView>),
}

impl<T: View> View for Next<T> {
    type V = NextView<T::V>;

    open spec fn view(&self) -> NextView<T::V> {
        match *self {
            Next::Read { cmd, body } => NextView::Read { cmd, body: body@ },
            Next::Done(Ok(value)) => NextView::Done(Ok(value@)),
            Next::Done(Err(e)) => NextView::Done(Err(e@)),
        }
    }
}

/// The registers that make up the status, in the order in which they are read.
pub open spec fn status_commands() -> Seq<MsCmd> {
    seq![
        ms::local_info(),
        ms::mac_info(),
        ms::frame_info(),
        ms::ip_addr(),
        ms::lof(),
        ms::eth_info(),
    ]
}

/// The body that the `k`th of them is read with.
pub open spec fn status_body(k: int) -> Seq<char> {
    if k == 0 {
        EMPTY_BODY@
    } else {
        ZERO_ARG_BODY@
    }
}

/// What follows once the first registers of the status gave `answers`.
pub open spec fn status_next(answers: Seq<Seq<u32>>) -> NextView<DeviceStatusView> {
    let k = answers.len() as int;
    if k < 6 {
        NextView::Read { cmd: status_commands()[k], body: status_body(k) }
    } else {
        NextView::Done(
            DeviceStatus::of(
                answers[0],
                answers[1],
                answers[2],
                answers[3],
                answers[4],
                answers[5],
            ),
        )
    }
}

/// What follows a reply, and the answers so far with it. The Ethernet ports are
/// read last, and older firmware does not know them: an error there reads as an
/// answer without words. Any other error ends the read.
pub open spec fn status_stepped(
    answers: Seq<Seq<u32>>,
    reply: core::result::Result<Seq<u32>, ErrorView>,
) -> (Seq<Seq<u32>>, NextView<DeviceStatusView>) {
    match reply {
        Ok(words) => (answers.push(words), status_next(answers.push(words))),
        Err(e) => if answers.len() < 5 {
            (answers, NextView::Done(Err(e)))
        } else {
            (answers.push(Seq::empty()), status_next(answers.push(Seq::empty())))
        },
    }
}

/// The words of a register, or the error of reading it, by their views.
pub open spec fn reply_view(reply: Result<Vec<u32>>) -> core::result::Result<Seq<u32>, ErrorView> {
    match reply {
        Ok(words) => Ok(words@),
        Err(e) => Err(e@),
    }
}

/// Reading the status of an adapter.
pub struct StatusRead {
    pub answers: Vec<Vec<u32>>,
}

impl StatusRead {
    /// The words of the registers read so far.
    pub open spec fn so_far(self) -> Seq<Seq<u32>> {
        word_views(self.answers@)
    }

    /// Begins the read: nothing is read yet.
    pub fn new() -> (r: (StatusRead, Next<DeviceStatus>))
        ensures
            r.0.so_far() == Seq::<Seq<u32>>::empty(),
            r.1@ == status_next(r.0.so_far()),
    {
        let read = StatusRead { answers: Vec::new() };
        assert(read.so_far() =~= Seq::<Seq<u32>>::empty());
        let next = read.next();
        (read, next)
    }

    /// What follows.
    fn next(&self) -> (r: Next<DeviceStatus>)
        requires
            self.so_far().len() <= 6,
        ensures
            r@ == status_next(self.so_far()),
    {
        let k: usize = self.answers.len();
        if k < 6 {
            let cmd = match k {
                0 => ms::local_info(),
                1 => ms::mac_info(),
                2 => ms::frame_info(),
                3 => ms::ip_addr(),
                4 => ms::lof(),
                _ => ms::eth_info(),
            };
            let body = if k == 0 {
                EMPTY_BODY
            } else {
                ZERO_ARG_BODY
            };
            return Next::Read { cmd, body: body.to_owned() };
        }
        Next::Done(
            DeviceStatus::decode(
                self.answers[0].as_slice(),
                self.answers[1].as_slice(),
                self.answers[2].as_slice(),
                self.answers[3].as_slice(),
                self.answers[4].as_slice(),
                self.answers[5].as_slice(),
            ),
        )
    }

    /// Takes in the words of a register, or the error of reading it, and says
    /// what follows.
    pub fn step(&mut self, reply: Result<Vec<u32>>) -> (r: Next<DeviceStatus>)
        requires
            old(self).so_far().len() < 6,
        ensures
            (final(self).so_far(), r@) == status_stepped(old(self).so_far(), reply_view(reply)),
    {
        let words = match reply {
            Ok(words) => words,
            Err(e) => {
                if self.answers.len() < 5 {
                    return Next::Done(Err(e));
                }
                let none: Vec<u32> = Vec::new();
                assert(none@ =~= Seq::<u32>::empty());
                none
            },
        };
        let ghost before = self.so_far();
        let ghost shown = words@;
        self.answers.push(words);
        assert(self.so_far() =~= before.push(shown));
        self.next()
    }
}

/// The body that asks for one node.
pub open spec fn node_body(node: u32) -> Seq<char> {
    "{\"data\":["@ + decimal(node as nat) + "]}"@
}

fn node_body_text(node: u32) -> (r: String)
    ensures
        r@ == node_body(node),
{
    let n = decimal_text(node as u64);
    "{\"data\":[".to_owned().concat(n.as_str()).concat("]}")
}

/// The nodes that the local information names.
pub open spec fn ids_of(local: Seq<u32>) -> Seq<u32> {
    present_nodes(local[12], MAX_NODES as nat)
}

/// What is known of a network while it is read: the local information, once it
/// is there, and what the adapter holds of the first of its nodes.
#[verifier::ext_equal]
pub struct NetView {
    pub local: Option<Seq<u32>>,
    pub nets: Seq<Seq<u32>>,
}

impl NetView {
    /// The state with one more answer.
    pub open spec fn with(self, words: Seq<u32>) -> NetView {
        match self.local {
            None => NetView { local: Some(words), ..self },
            Some(_) => NetView { nets: self.nets.push(words), ..self },
        }
    }
}

/// What follows in listing the nodes: the local information, then what the
/// adapter holds of each node that it names.
pub open spec fn nodes_next(known: NetView) -> NextView<Seq<MocaNodeView>> {
    match known.local {
        None => NextView::Read { cmd: ms::local_info(), body: EMPTY_BODY@ },
        Some(local) => match word(local, 12, "0x15"@) {
            Err(e) => NextView::Done(Err(e)),
            Ok(_) => {
                let ids = ids_of(local);
                let k = known.nets.len() as int;
                if k < ids.len() {
                    NextView::Read { cmd: ms::net_info(), body: node_body(ids[k]) }
                } else {
                    NextView::Done(nodes_of(ids, known.nets))
                }
            },
        },
    }
}

/// Reading the nodes of a network.
pub struct NodesRead {
    pub local: Option<Vec<u32>>,
    pub ids: Vec<u32>,
    pub nets: Vec<Vec<u32>>,
}

/// A list of nodes.
pub struct NodeList {
    pub nodes: Vec<MocaNode>,
}

impl View for NodeList {
    type V = Seq<MocaNodeView>;

    open spec fn view(&self) -> Seq<MocaNodeView> {
        node_views(self.nodes@)
    }
}

impl View for NodesRead {
    type V = NetView;

    open spec fn view(&self) -> NetView {
        NetView {
            local: match self.local {
                Some(words) => Some(words@),
                None => None,
            },
            nets: word_views(self.nets@),
        }
    }
}

impl NodesRead {
    /// What holds while the nodes are read.
    pub open spec fn wf(self) -> bool {
        match self@.local {
            None => self@.nets.len() == 0,
            Some(local) => local.len() > 12 && self.ids@ == ids_of(local) && self@.nets.len()
                < self.ids@.len(),
        }
    }

    /// Begins the read: nothing is read yet.
    pub fn new() -> (r: (NodesRead, Next<NodeList>))
        ensures
            r.0@ == (NetView { local: None, nets: Seq::empty() }),
            r.1@ == nodes_next(r.0@),
            r.0.wf(),
    {
        let read = NodesRead { local: None, ids: Vec::new(), nets: Vec::new() };
        assert(read@.nets =~= Seq::<Seq<u32>>::empty());
        (read, Next::Read { cmd: ms::local_info(), body: EMPTY_BODY.to_owned() })
    }

    fn finish(&self) -> (r: Result<NodeList>)
        requires
            self@.local is Some,
            self.ids@ == ids_of(self@.local->0),
            self@.nets.len() == self.ids@.len(),
        ensures
            outcome_is(r, nodes_of(self.ids@, self@.nets)),
    {
        let ghost nets = self@.nets;
        let mut out: Vec<MocaNode> = Vec::new();
        let mut k: usize = 0;
        assert(nets.take(0) =~= Seq::<Seq<u32>>::empty());
        assert(node_views(out@) =~= Seq::<MocaNodeView>::empty());
        while k < self.nets.len()
            invariant
                k <= self.nets.len(),
                nets == word_views(self.nets@),
                nets == self@.nets,
                nets.len() == self.ids@.len(),
                nodes_of(self.ids@, nets.take(k as int)) == Ok::<Seq<MocaNodeView>, ErrorView>(
                    node_views(out@),
                ),
            decreases self.nets.len() - k,
        {
            assert(nets.take(k + 1).drop_last() =~= nets.take(k as int));
            assert(nets.take(k + 1).last() == self.nets@[k as int]@);
            let node = match decode_node(self.ids[k], self.nets[k].as_slice()) {
                Ok(node) => node,
                Err(e) => {
                    proof {
                        lemma_nodes_fail(self.ids@, nets, k + 1);
                    }
                    return Err(e);
                },
            };
            let ghost before = node_views(out@);
            let ghost shown = node@;
            out.push(node);
            assert(node_views(out@) =~= before.push(shown));
            k = k + 1;
        }
        assert(nets.take(nets.len() as int) =~= nets);
        Ok(NodeList { nodes: out })
    }

    /// Takes in the words of a register, or the error of reading it, and says
    /// what follows. An error ends the read.
    pub fn step(&mut self, reply: Result<Vec<u32>>) -> (r: Next<NodeList>)
        requires
            old(self).wf(),
        ensures
            match reply {
                Ok(words) => final(self)@ == old(self)@.with(words@) && r@ == nodes_next(
                    final(self)@,
                ),
                Err(e) => final(self)@ == old(self)@ && r@ == NextView::<Seq<MocaNodeView>>::Done(
                    Err(e@),
                ),
            },
            r is Read ==> final(self).wf(),
    {
        let words = match reply {
            Ok(words) => words,
            Err(e) => return Next::Done(Err(e)),
        };
        if self.local.is_none() {
            let bitmask = get(words.as_slice(), 12, "0x15");
            self.local = Some(words);
            assert(self@ =~= old(self)@.with(words@));
            match bitmask {
                Ok(node_bitmask) => {
                    self.ids = nodes_in(node_bitmask);
                },
                Err(e) => return Next::Done(Err(e)),
            }
        } else {
            let ghost before = self@.nets;
            self.nets.push(words);
            assert(self@.nets =~= before.push(words@));
            assert(self@ =~= old(self)@.with(words@));
        }
        let k: usize = self.nets.len();
        if k < self.ids.len() {
            Next::Read { cmd: ms::net_info(), body: node_body_text(self.ids[k]) }
        } else {
            Next::Done(self.finish())
        }
    }
}

proof fn lemma_nodes_fail(ids: Seq<u32>, nets: Seq<Seq<u32>>, n: int)
    requires
        0 <= n <= nets.len(),
        nodes_of(ids, nets.take(n)) is Err,
    ensures
        nodes_of(ids, nets) == nodes_of(ids, nets.take(n)),
    decreases nets.len() - n,
{
    if n < nets.len() {
        assert(nets.take(n + 1).drop_last() =~= nets.take(n));
        lemma_nodes_fail(ids, nets, n + 1);
    } else {
        assert(nets.take(n) =~= nets);
    }
}

/// What is known of the rates of a network while they are read: the local
/// information, once it is there, then what the adapter holds of the first
/// nodes, then the bit-loading parameters of the first nodes.
#[verifier::ext_equal]
pub struct PhyView {
    pub local: Option<Seq<u32>>,
    pub nets: Seq<Seq<u32>>,
    pub fmrs: Seq<Seq<u32>>,
}

impl PhyView {
    /// The state with one more answer.
    pub open spec fn with(self, words: Seq<u32>) -> PhyView {
        match self.local {
            None => PhyView { local: Some(words), ..self },
            Some(local) => if self.nets.len() < ids_of(local).len() {
                PhyView { nets: self.nets.push(words), ..self }
            } else {
                PhyView { fmrs: self.fmrs.push(words), ..self }
            },
        }
    }
}

/// The version byte that the adapter holds of a node.
pub open spec fn version_byte(net: Seq<u32>) -> u8 {
    net[4] as u8
}

/// The first answer about a node that is too short for its version, if one is.
pub open spec fn net_complaint(nets: Seq<Seq<u32>>) -> Option<ErrorView>
    decreases nets.len(),
{
    if nets.len() == 0 {
        None
    } else {
        match net_complaint(nets.drop_last()) {
            Some(e) => Some(e),
            None => match word(nets.last(), 4, "0x16"@) {
                Err(e) => Some(e),
                Ok(_) => None,
            },
        }
    }
}

/// The version byte of each node, 0 where none is known.
pub open spec fn versions(ids: Seq<u32>, nets: Seq<Seq<u32>>) -> Seq<u8>
    decreases nets.len(),
{
    if nets.len() == 0 {
        Seq::new(MAX_NODES as nat, |i: int| 0u8)
    } else {
        versions(ids, nets.drop_last()).update(
            ids[nets.len() - 1] as int,
            version_byte(nets.last()),
        )
    }
}

/// The nodes with their version bytes.
pub open spec fn node_versions(ids: Seq<u32>, nets: Seq<Seq<u32>>) -> Seq<(u32, u8)> {
    Seq::new(nets.len(), |k: int| (ids[k], version_byte(nets[k])))
}

/// What decides the layout of the bit-loading parameters.
pub open spec fn layout_of(local: Seq<u32>, nets: Seq<Seq<u32>>) -> Layout {
    let node_vers = versions(ids_of(local), nets);
    Layout {
        node_bitmask: local[12],
        node_vers,
        nc_moca_ver: if local[1] < node_vers.len() {
            node_vers[local[1] as int]
        } else {
            0
        },
    }
}

/// The version that bit-loading parameters are asked in: 2 on a network of
/// version 2.0 or above, else 1.
pub open spec fn final_version(local: Seq<u32>) -> u32 {
    if local[11] >= 0x20 {
        2
    } else {
        1
    }
}

/// The body that asks for the bit-loading parameters of a node, which is named
/// by its bit.
pub open spec fn fmr_body(node: u32, version: u32) -> Seq<char> {
    "{\"data\":["@ + decimal((1u32 << node) as nat) + ","@ + decimal(version as nat) + "]}"@
}

fn fmr_body_text(node: u32, version: u32) -> (r: String)
    requires
        node < 32,
    ensures
        r@ == fmr_body(node, version),
{
    let bit = decimal_text((1u32 << node) as u64);
    let ver = decimal_text(version as u64);
    "{\"data\":[".to_owned().concat(bit.as_str()).concat(",").concat(ver.as_str()).concat("]}")
}

/// The links of the first nodes, or the error of the first answer that cannot be
/// decoded.
pub open spec fn links_read(
    layout: Layout,
    ids: Seq<u32>,
    fmrs: Seq<Seq<u32>>,
) -> core::result::Result<Seq<PhyLink>, ErrorView>
    decreases fmrs.len(),
{
    if fmrs.len() == 0 {
        Ok(Seq::empty())
    } else {
        match links_read(layout, ids, fmrs.drop_last()) {
            Err(e) => Err(e),
            Ok(before) => match layout.links(
                ids[fmrs.len() - 1],
                MAX_NODES as nat,
                fmrs.last(),
            ) {
                Err(e) => Err(e),
                Ok(links) => Ok(before + links),
            },
        }
    }
}

/// The rate of each node with itself.
pub open spec fn self_rates(links: Seq<PhyLink>) -> Seq<(u32, u32)>
    decreases links.len(),
{
    if links.len() == 0 {
        Seq::empty()
    } else {
        let before = self_rates(links.drop_last());
        let link = links.last();
        if link.from_node == link.to_node {
            before.push((link.from_node, link.nper_mbps))
        } else {
            before
        }
    }
}

/// What follows in reading the rates: the local information, what the adapter
/// holds of each node, and the bit-loading parameters of each node.
pub open spec fn phy_next(known: PhyView) -> NextView<PhyRatesView> {
    match known.local {
        None => NextView::Read { cmd: ms::local_info(), body: EMPTY_BODY@ },
        Some(local) => match word(local, 12, "0x15"@) {
            Err(e) => NextView::Done(Err(e)),
            Ok(_) => {
                let ids = ids_of(local);
                let n = known.nets.len() as int;
                let k = known.fmrs.len() as int;
                match net_complaint(known.nets) {
                    Some(e) => NextView::Done(Err(e)),
                    None => if n < ids.len() {
                        NextView::Read { cmd: ms::net_info(), body: node_body(ids[n]) }
                    } else {
                        match links_read(layout_of(local, known.nets), ids, known.fmrs) {
                            Err(e) => NextView::Done(Err(e)),
                            Ok(links) => if k < ids.len() {
                                NextView::Read {
                                    cmd: ms::fmr_info(),
                                    body: fmr_body(ids[k], final_version(local)),
                                }
                            } else {
                                NextView::Done(
                                    Ok(
                                        PhyRatesView {
                                            gcd_mbps: self_rates(links),
                                            links,
                                            node_versions: node_versions(ids, known.nets),
                                        },
                                    ),
                                )
                            },
                        }
                    },
                }
            },
        },
    }
}

/// Reading the rates of a network.
pub struct PhyRead {
    pub local: Option<Vec<u32>>,
    pub ids: Vec<u32>,
    pub nets: Vec<Vec<u32>>,
    pub fmrs: Vec<Vec<u32>>,
    pub node_vers: Vec<u8>,
    pub rates: PhyRates,
}

impl View for PhyRead {
    type V = PhyView;

    open spec fn view(&self) -> PhyView {
        PhyView {
            local: match self.local {
                Some(words) => Some(words@),
                None => None,
            },
            nets: word_views(self.nets@),
            fmrs: word_views(self.fmrs@),
        }
    }
}

/// The rates that follow from the links and nodes read so far.
pub open spec fn rates_so_far(known: PhyView, links: Seq<PhyLink>) -> PhyRatesView {
    PhyRatesView {
        gcd_mbps: self_rates(links),
        links,
        node_versions: match known.local {
            Some(local) => node_versions(ids_of(local), known.nets),
            None => Seq::empty(),
        },
    }
}

impl PhyRead {
    /// What holds of what was read, finished or not.
    pub open spec fn holds(self) -> bool {
        match self@.local {
            None => {
                &&& self@.nets.len() == 0
                &&& self@.fmrs.len() == 0
                &&& self.node_vers@ == versions(Seq::empty(), Seq::empty())
                &&& self.rates@ == rates_so_far(self@, Seq::empty())
            },
            Some(local) => {
                let ids = ids_of(local);
                &&& local.len() > 12
                &&& self.ids@ == ids
                &&& self@.nets.len() <= ids.len()
                &&& self@.nets.len() < ids.len() ==> self@.fmrs.len() == 0
                &&& self@.fmrs.len() <= ids.len()
                &&& net_complaint(self@.nets) is None
                &&& self.node_vers@ == versions(ids, self@.nets)
                &&& links_read(layout_of(local, self@.nets), ids, self@.fmrs) == Ok::<
                    Seq<PhyLink>,
                    ErrorView,
                >(self.rates@.links)
                &&& self.rates@ == rates_so_far(self@, self.rates@.links)
            },
        }
    }

    /// What holds while the rates are read.
    pub open spec fn wf(self) -> bool {
        self.holds() && (self@.local is Some ==> self@.fmrs.len() < self.ids@.len())
    }

    /// Begins the read: nothing is read yet.
    pub fn new() -> (r: (PhyRead, Next<PhyRates>))
        ensures
            r.0@ == (PhyView { local: None, nets: Seq::empty(), fmrs: Seq::empty() }),
            r.1@ == phy_next(r.0@),
            r.0.wf(),
    {
        let mut node_vers: Vec<u8> = Vec::new();
        let mut i: u32 = 0;
        while i < MAX_NODES
            invariant
                i <= MAX_NODES,
                node_vers@ == Seq::new(i as nat, |k: int| 0u8),
            decreases MAX_NODES - i,
        {
            node_vers.push(0);
            i = i + 1;
            assert(node_vers@ =~= Seq::new(i as nat, |k: int| 0u8));
        }
        let read = PhyRead {
            local: None,
            ids: Vec::new(),
            nets: Vec::new(),
            fmrs: Vec::new(),
            node_vers,
            rates: PhyRates::default(),
        };
        assert(read@.nets =~= Seq::<Seq<u32>>::empty());
        assert(read@.fmrs =~= Seq::<Seq<u32>>::empty());
        assert(read.rates@ =~= rates_so_far(read@, Seq::empty()));
        (read, Next::Read { cmd: ms::local_info(), body: EMPTY_BODY.to_owned() })
    }

    /// Takes in the local information.
    fn take_local(&mut self, words: Vec<u32>) -> (r: Result<()>)
        requires
            old(self).wf(),
            old(self)@.local is None,
        ensures
            final(self)@ == old(self)@.with(words@),
            match r {
                Ok(_) => final(self).holds(),
                Err(e) => word(words@, 12, "0x15"@) == Err::<u32, ErrorView>(e@),
            },
    {
        let bitmask = get(words.as_slice(), 12, "0x15");
        self.local = Some(words);
        assert(self@ =~= old(self)@.with(words@));
        match bitmask {
            Ok(node_bitmask) => {
                self.ids = nodes_in(node_bitmask);
                proof {
                    assert(versions(Seq::empty(), Seq::empty()) == versions(self.ids@, self@.nets));
                    assert(self.rates@ =~= rates_so_far(self@, Seq::empty()));
                }
                Ok(())
            },
            Err(e) => Err(e),
        }
    }

    /// Takes in what the adapter holds of the next node.
    fn take_net(&mut self, words: Vec<u32>) -> (r: Result<()>)
        requires
            old(self).wf(),
            old(self)@.local is Some,
            old(self)@.nets.len() < old(self).ids@.len(),
        ensures
            final(self)@ == old(self)@.with(words@),
            match r {
                Ok(_) => final(self).holds(),
                Err(e) => net_complaint(final(self)@.nets) == Some(e@),
            },
    {
        let ghost before = self@.nets;
        let ghost local = self@.local->0;
        let n: usize = self.nets.len();
        let id: u32 = self.ids[n];
        let version = get(words.as_slice(), 4, "0x16");
        self.nets.push(words);
        proof {
            assert(self@.nets =~= before.push(words@));
            assert(self@ =~= old(self)@.with(words@));
            assert(self@.nets.drop_last() =~= before);
            lemma_present_nodes(local[12], MAX_NODES as nat);
            lemma_versions_len(self.ids@, before);
        }
        match version {
            Ok(ver) => {
                let raw: u8 = #[verifier::truncate]
                (ver as u8);
                self.node_vers.set(id as usize, raw);
                self.rates.node_versions.push((id, raw));
                proof {
                    assert(self.rates@.node_versions =~= node_versions(self.ids@, self@.nets));
                    assert(self.rates@ =~= rates_so_far(self@, Seq::empty()));
                }
                Ok(())
            },
            Err(e) => Err(e),
        }
    }

    /// Takes in the bit-loading parameters of the next node.
    fn take_fmr(&mut self, words: Vec<u32>) -> (r: Result<()>)
        requires
            old(self).wf(),
            old(self)@.local is Some,
            old(self)@.nets.len() == old(self).ids@.len(),
        ensures
            final(self)@ == old(self)@.with(words@),
            match r {
                Ok(_) => final(self).holds(),
                Err(e) => links_read(
                    layout_of(final(self)@.local->0, final(self)@.nets),
                    ids_of(final(self)@.local->0),
                    final(self)@.fmrs,
                ) == Err::<Seq<PhyLink>, ErrorView>(e@),
            },
    {
        let ghost before = self@.fmrs;
        let ghost local = self@.local->0;
        let k: usize = self.fmrs.len();
        let id: u32 = self.ids[k];
        let (node_bitmask, nc_node_id) = match &self.local {
            Some(local) => (local[12], local[1]),
            None => (0, 0),
        };
        let nc_moca_ver: u8 = if (nc_node_id as usize) < self.node_vers.len() {
            self.node_vers[nc_node_id as usize]
        } else {
            0
        };
        let decoded = decode_fmr(
            id,
            node_bitmask,
            self.node_vers.as_slice(),
            nc_moca_ver,
            words.as_slice(),
        );
        self.fmrs.push(words);
        proof {
            assert(self@.fmrs =~= before.push(words@));
            assert(self@ =~= old(self)@.with(words@));
            assert(self@.fmrs.drop_last() =~= before);
        }
        match decoded {
            Ok(links) => {
                let ghost had = self.rates@.links;
                let ghost got = links@;
                let mut links = links;
                let mut j: usize = 0;
                assert(got.take(0) =~= Seq::<PhyLink>::empty());
                assert(had + got.take(0) =~= had);
                while j < links.len()
                    invariant
                        j <= links.len(),
                        links@ == got,
                        self.rates@.gcd_mbps == self_rates(had + got.take(j as int)),
                        self.rates@.links == had,
                        self.rates@.node_versions == old(self).rates@.node_versions,
                        self.local == old(self).local,
                        self.ids == old(self).ids,
                        self.nets == old(self).nets,
                        self.node_vers == old(self).node_vers,
                        word_views(self.fmrs@) == before.push(words@),
                    decreases links.len() - j,
                {
                    let link = links[j];
                    proof {
                        assert((had + got.take(j + 1)).drop_last() =~= had + got.take(j as int));
                        assert((had + got.take(j + 1)).last() == link);
                    }
                    if link.from_node == link.to_node {
                        self.rates.gcd_mbps.push((link.from_node, link.nper_mbps));
                    }
                    j = j + 1;
                }
                assert(got.take(got.len() as int) =~= got);
                self.rates.links.append(&mut links);
                assert(self.rates@.links =~= had + got);
                assert(self@ =~= old(self)@.with(words@));
                assert(self.rates@ =~= rates_so_far(self@, had + got));
                Ok(())
            },
            Err(e) => Err(e),
        }
    }

    /// Takes in the words of a register, or the error of reading it, and says
    /// what follows. An error ends the read.
    pub fn step(&mut self, reply: Result<Vec<u32>>) -> (r: Next<PhyRates>)
        requires
            old(self).wf(),
        ensures
            match reply {
                Ok(words) => final(self)@ == old(self)@.with(words@) && r@ == phy_next(
                    final(self)@,
                ),
                Err(e) => final(self)@ == old(self)@ && r@ == NextView::<PhyRatesView>::Done(
                    Err(e@),
                ),
            },
            r is Read ==> final(self).wf(),
    {
        let words = match reply {
            Ok(words) => words,
            Err(e) => return Next::Done(Err(e)),
        };
        let taken = if self.local.is_none() {
            self.take_local(words)
        } else if self.nets.len() < self.ids.len() {
            self.take_net(words)
        } else {
            self.take_fmr(words)
        };
        if let Err(e) = taken {
            return Next::Done(Err(e));
        }
        proof {
            lemma_present_nodes(self@.local->0[12], MAX_NODES as nat);
        }
        if self.nets.len() < self.ids.len() {
            let id: u32 = self.ids[self.nets.len()];
            return Next::Read { cmd: ms::net_info(), body: node_body_text(id) };
        }
        if self.fmrs.len() < self.ids.len() {
            let id: u32 = self.ids[self.fmrs.len()];
            let version: u32 = match &self.local {
                Some(local) => if local[11] >= 0x20 {
                    2
                } else {
                    1
                },
                None => 1,
            };
            return Next::Read { cmd: ms::fmr_info(), body: fmr_body_text(id, version) };
        }
        let mut rates = PhyRates::default();
        std::mem::swap(&mut rates, &mut self.rates);
        Next::Done(Ok(rates))
    }
}

proof fn lemma_versions_len(ids: Seq<u32>, nets: Seq<Seq<u32>>)
    requires
        nets.len() <= ids.len(),
        forall|i: int| 0 <= i < ids.len() ==> #[trigger] ids[i] < MAX_NODES,
    ensures
        versions(ids, nets).len() == MAX_NODES,
    decreases nets.len(),
{
    if nets.len() > 0 {
        lemma_versions_len(ids, nets.drop_last());
    }
}

/// A failure to read the Ethernet ports leaves the rest of the status as it is:
/// the status comes out as with an adapter that has no ports to report.
pub proof fn law_ports_are_optional(answers: Seq<Seq<u32>>, e: ErrorView)
    requires
        answers.len() == 5,
    ensures
        status_stepped(answers, Err(e)) == status_stepped(answers, Ok(Seq::empty())),
        status_stepped(answers, Err(e)).1 matches NextView::Done(Ok(status))
            ==> status.eth_ports.len() == 0,
        status_stepped(answers, Err(e)).1 == NextView::Done(
            DeviceStatus::of(
                answers[0],
                answers[1],
                answers[2],
                answers[3],
                answers[4],
                Seq::empty(),
            ),
        ),
{
}

/// A failure to read any other register of the status fails the whole.
pub proof fn law_status_needs_the_rest(answers: Seq<Seq<u32>>, e: ErrorView)
    requires
        answers.len() < 5,
    ensures
        status_stepped(answers, Err(e)).1 == NextView::<DeviceStatusView>::Done(Err(e)),
{
}

proof fn lemma_self_rates_append(a: Seq<PhyLink>, b: Seq<PhyLink>)
    ensures
        self_rates(a + b) == self_rates(a) + self_rates(b),
    decreases b.len(),
{
    if b.len() == 0 {
        assert(a + b =~= a);
        assert(self_rates(a) + self_rates(b) =~= self_rates(a));
    } else {
        assert((a + b).drop_last() =~= a + b.drop_last());
        lemma_self_rates_append(a, b.drop_last());
        assert(self_rates(a + b) =~= self_rates(a) + self_rates(b));
    }
}

/// The links of a node hold the link of the node to itself once, if it is
/// present.
proof fn lemma_self_rate(layout: Layout, from: u32, upto: nat, fmr: Seq<u32>)
    requires
        upto <= 32,
    ensures
        layout.links(from, upto, fmr) matches Ok(links) ==> {
            let own = self_rates(links);
            if from < upto && is_present(layout.node_bitmask, from) {
                own.len() == 1 && own[0].0 == from
            } else {
                own.len() == 0
            }
        },
    decreases upto,
{
    if upto > 0 {
        lemma_self_rate(layout, from, (upto - 1) as nat, fmr);
        if let Ok(links) = layout.links(from, upto, fmr) {
            let to = (upto - 1) as u32;
            if is_present(layout.node_bitmask, to) {
                let before = layout.links(from, (upto - 1) as nat, fmr)->Ok_0;
                assert(links.drop_last() =~= before);
            }
        }
    }
}

/// The rates of a network that was read to the end are complete: there is one
/// link from every node to every node, itself included, in the order of the
/// nodes, and one rate of each node with itself.
pub proof fn law_rates_complete(layout: Layout, fmrs: Seq<Seq<u32>>)
    requires
        fmrs.len() <= present_nodes(layout.node_bitmask, MAX_NODES as nat).len(),
    ensures
        ({
            let ids = present_nodes(layout.node_bitmask, MAX_NODES as nat);
            let n = ids.len() as int;
            links_read(layout, ids, fmrs) matches Ok(links) ==> {
                &&& links.len() == fmrs.len() * n
                &&& forall|i: int, j: int|
                    0 <= i < fmrs.len() && 0 <= j < n ==> (#[trigger] links[i * n + j]).from_node
                        == ids[i] && links[i * n + j].to_node == ids[j]
                &&& self_rates(links).len() == fmrs.len()
                &&& forall|i: int|
                    0 <= i < fmrs.len() ==> (#[trigger] self_rates(links)[i]).0 == ids[i]
            }
        }),
    decreases fmrs.len(),
{
    let ids = present_nodes(layout.node_bitmask, MAX_NODES as nat);
    let n = ids.len() as int;
    lemma_present_nodes(layout.node_bitmask, MAX_NODES as nat);
    if fmrs.len() > 0 {
        let last = fmrs.len() - 1;
        law_rates_complete(layout, fmrs.drop_last());
        if let Ok(links) = links_read(layout, ids, fmrs) {
            let before = links_read(layout, ids, fmrs.drop_last())->Ok_0;
            let own = layout.links(ids[last], MAX_NODES as nat, fmrs.last())->Ok_0;
            law_one_link_per_node(layout, ids[last], MAX_NODES as nat, fmrs.last());
            lemma_self_rate(layout, ids[last], MAX_NODES as nat, fmrs.last());
            lemma_self_rates_append(before, own);
            assert(before.len() == last * n);
            assert(fmrs.len() * n == last * n + n) by (nonlinear_arith)
                requires
                    fmrs.len() == last + 1,
            ;
            assert forall|i: int, j: int| 0 <= i < fmrs.len() && 0 <= j < n implies (
            #[trigger] links[i * n + j]).from_node == ids[i] && links[i * n + j].to_node
                == ids[j] by {
                if i < last {
                    assert(i * n + j < last * n && i * n + j >= 0) by (nonlinear_arith)
                        requires
                            0 <= i < last,
                            0 <= j < n,
                    ;
                    assert(links[i * n + j] == before[i * n + j]);
                } else {
                    assert(links[i * n + j] == own[j]);
                }
            }
        }
    }
}

/// No read ever sends the command that reboots the adapter.
pub proof fn law_reads_never_reboot(answers: Seq<Seq<u32>>, known: PhyView, net: NetView)
    ensures
        status_next(answers) matches NextView::Read { cmd, .. } ==> cmd != ms::reboot(),
        phy_next(known) matches NextView::Read { cmd, .. } ==> cmd != ms::reboot(),
        nodes_next(net) matches NextView::Read { cmd, .. } ==> cmd != ms::reboot(),
{
}

/// Every read ends: the status after six registers, the nodes after one for the
/// network and one for each node, the rates after one more for each node.
pub proof fn law_reads_end(answers: Seq<Seq<u32>>, known: PhyView, net: NetView)
    ensures
        status_next(answers) is Read ==> answers.len() < 6,
        nodes_next(net) is Read ==> net.local is None || net.nets.len() < ids_of(
            net.local->0,
        ).len(),
        phy_next(known) is Read ==> known.local is None || known.nets.len() < ids_of(
            known.local->0,
        ).len() || known.fmrs.len() < ids_of(known.local->0).len(),
{
}

} // verus!
