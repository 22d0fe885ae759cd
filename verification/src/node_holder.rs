//! The node holder: the single owner of the roster of known peers.
//! Every mutation arrives as a command; the holder applies commands one
//! at a time, so the roster's invariants survive any command sequence.

use vstd::prelude::*;
use crate::node::{Node, NodeView, node_views};

verus! {

/// How long a node may go unheard before the sweeper marks it
/// inactive, in milliseconds.
pub const DEFAULT_NODE_TIMEOUT_MILLIS: u64 = 5000;

/// A roster mutation.
#[derive(Debug)]
pub enum NodeOperation {
    /// Delete the entry with this node's id.
    Remove(Node),
    /// Re-insert the node marked unreachable; its timestamp keeps its
    /// last value.
    InActive(Node),
    /// Re-insert the node marked reachable, stamped with the present
    /// wall clock.
    Active(Node),
    /// Re-insert the node as it stands, for seeding from a persisted
    /// snapshot.
    Init(Node),
}

/// The mathematical shape of a roster mutation.
pub enum NodeOpView {
    Remove(NodeView),
    InActive(NodeView),
    Active(NodeView),
    Init(NodeView),
}

impl View for NodeOperation {
    type V = NodeOpView;

    open spec fn view(&self) -> NodeOpView {
        match self {
            NodeOperation::Remove(n) => NodeOpView::Remove(n@),
            NodeOperation::InActive(n) => NodeOpView::InActive(n@),
            NodeOperation::Active(n) => NodeOpView::Active(n@),
            NodeOperation::Init(n) => NodeOpView::Init(n@),
        }
    }
}

/// The roster without any entry carrying the given id.
pub open spec fn spec_remove_id(s: Seq<NodeView>, id: i64) -> Seq<NodeView>
    decreases s.len(),
{
    if s.len() == 0 {
        Seq::empty()
    } else {
        let pre = spec_remove_id(s.drop_last(), id);
        if s.last().id == id {
            pre
        } else {
            pre + seq![s.last()]
        }
    }
}

/// What one command does to the roster: the entry with the node's id
/// is removed, and all but `Remove` append the node back, adjusted as
/// the command asks.
pub open spec fn spec_apply(s: Seq<NodeView>, op: NodeOpView, now: u128) -> Seq<NodeView> {
    match op {
        NodeOpView::Remove(n) => spec_remove_id(s, n.id),
        NodeOpView::InActive(n) => spec_remove_id(s, n.id) + seq![
            NodeView { active: false, ..n },
        ],
        NodeOpView::Active(n) => spec_remove_id(s, n.id) + seq![
            NodeView { active: true, hit_timestamp: now, ..n },
        ],
        NodeOpView::Init(n) => spec_remove_id(s, n.id) + seq![n],
    }
}

/// A well-formed roster: no two entries share an id.
pub open spec fn wf_roster(s: Seq<NodeView>) -> bool {
    forall|i: int, j: int| 0 <= i < j < s.len() ==> s[i].id != s[j].id
}

/// Every kept entry stood in the roster.
proof fn lemma_remove_id_from(s: Seq<NodeView>, id: i64)
    ensures
        forall|j: int|
            0 <= j < spec_remove_id(s, id).len() ==> s.contains(#[trigger] spec_remove_id(s, id)[j])
                && spec_remove_id(s, id)[j].id != id,
    decreases s.len(),
{
    if s.len() > 0 {
        lemma_remove_id_from(s.drop_last(), id);
        let rem = spec_remove_id(s, id);
        let pre = spec_remove_id(s.drop_last(), id);
        assert forall|j: int| 0 <= j < rem.len() implies s.contains(#[trigger] rem[j]) && rem[j].id
            != id by {
            if j < pre.len() {
                assert(rem[j] == pre[j]);
                assert(s.drop_last().contains(pre[j]));
                let i = choose|i: int| 0 <= i < s.drop_last().len() && s.drop_last()[i] == pre[j];
                assert(s[i] == pre[j]);
            } else {
                assert(rem[j] == s.last());
            }
        }
    }
}

/// Removal keeps the roster well formed.
pub proof fn lemma_remove_id_wf(s: Seq<NodeView>, id: i64)
    requires
        wf_roster(s),
    ensures
        wf_roster(spec_remove_id(s, id)),
    decreases s.len(),
{
    if s.len() > 0 {
        assert(wf_roster(s.drop_last()));
        lemma_remove_id_wf(s.drop_last(), id);
        lemma_remove_id_from(s.drop_last(), id);
        let rem = spec_remove_id(s, id);
        let pre = spec_remove_id(s.drop_last(), id);
        assert forall|i: int, j: int| 0 <= i < j < rem.len() implies rem[i].id != rem[j].id by {
            if j < pre.len() {
                assert(rem[i] == pre[i] && rem[j] == pre[j]);
            } else {
                assert(rem[i] == pre[i]);
                let k = choose|k: int|
                    0 <= k < s.drop_last().len() && s.drop_last()[k] == pre[i];
                assert(s[k] == pre[i]);
                assert(rem[j] == s[s.len() - 1]);
            }
        }
    }
}

/// No two entries share an id after any command.
///
/// This is the roster uniqueness law: a well-formed roster stays well
/// formed under every `Remove`, `InActive`, `Active` and `Init`
/// command, so no sequence of commands can give two entries one id.
pub proof fn lemma_apply_preserves_uniqueness(s: Seq<NodeView>, op: NodeOpView, now: u128)
    requires
        wf_roster(s),
    ensures
        wf_roster(spec_apply(s, op, now)),
{
    let id = match op {
        NodeOpView::Remove(n) => n.id,
        NodeOpView::InActive(n) => n.id,
        NodeOpView::Active(n) => n.id,
        NodeOpView::Init(n) => n.id,
    };
    lemma_remove_id_wf(s, id);
    lemma_remove_id_from(s, id);
    let rem = spec_remove_id(s, id);
    let out = spec_apply(s, op, now);
    match op {
        NodeOpView::Remove(_) => {},
        _ => {
            assert(out.len() == rem.len() + 1);
            assert(out[out.len() - 1].id == id);
            assert forall|i: int, j: int| 0 <= i < j < out.len() implies out[i].id != out[j].id by {
                if j < rem.len() {
                    assert(out[i] == rem[i] && out[j] == rem[j]);
                } else {
                    assert(out[i] == rem[i]);
                }
            }
        },
    }
}

/// The timestamp the roster holds for an id, if the id is known.
pub open spec fn spec_stamp_of(s: Seq<NodeView>, id: i64) -> Option<u128>
    decreases s.len(),
{
    if s.len() == 0 {
        None
    } else if s.last().id == id {
        Some(s.last().hit_timestamp)
    } else {
        spec_stamp_of(s.drop_last(), id)
    }
}

/// An `Active` command stamps its node's entry with the clock it was
/// applied at.
pub proof fn lemma_active_sets_stamp(s: Seq<NodeView>, n: NodeView, now: u128)
    ensures
        spec_stamp_of(spec_apply(s, NodeOpView::Active(n), now), n.id) == Some(now),
{
    let out = spec_apply(s, NodeOpView::Active(n), now);
    assert(out.last() == (NodeView { active: true, hit_timestamp: now, ..n }));
}

/// For one id, the timestamp never decreases across `Active` commands.
///
/// This is the monotonicity law: two `Active` commands for the same id
/// applied at non-decreasing clock readings leave a timestamp no
/// smaller than the first stamped, whatever commands for other ids ran
/// in between (the roster in the middle is arbitrary here).
pub proof fn lemma_active_monotonic(
    s1: Seq<NodeView>,
    s2: Seq<NodeView>,
    n1: NodeView,
    n2: NodeView,
    t1: u128,
    t2: u128,
)
    requires
        n1.id == n2.id,
        t1 <= t2,
    ensures
        ({
            let first = spec_stamp_of(spec_apply(s1, NodeOpView::Active(n1), t1), n1.id);
            let second = spec_stamp_of(spec_apply(s2, NodeOpView::Active(n2), t2), n2.id);
            &&& first == Some(t1)
            &&& second == Some(t2)
            &&& first.unwrap() <= second.unwrap()
        }),
{
    lemma_active_sets_stamp(s1, n1, t1);
    lemma_active_sets_stamp(s2, n2, t2);
}

/// An `InActive` command keeps the timestamp the command's node
/// carries: marking a node unreachable never advances its clock.
pub proof fn lemma_inactive_keeps_stamp(s: Seq<NodeView>, n: NodeView, now: u128)
    ensures
        spec_stamp_of(spec_apply(s, NodeOpView::InActive(n), now), n.id) == Some(n.hit_timestamp),
{
    let out = spec_apply(s, NodeOpView::InActive(n), now);
    assert(out.last() == (NodeView { active: false, ..n }));
}

/// A node the sweeper should demote: still marked reachable, but
/// silent for longer than the timeout.
pub open spec fn node_stale(n: NodeView, now: u128, timeout_millis: u64) -> bool {
    n.active && n.hit_timestamp + timeout_millis < now
}

/// The stale nodes of a roster, in roster order.
pub open spec fn spec_expired(s: Seq<NodeView>, now: u128, timeout_millis: u64) -> Seq<NodeView>
    decreases s.len(),
{
    if s.len() == 0 {
        Seq::empty()
    } else {
        let pre = spec_expired(s.drop_last(), now, timeout_millis);
        if node_stale(s.last(), now, timeout_millis) {
            pre + seq![s.last()]
        } else {
            pre
        }
    }
}

/// The sweeper's pick is exact: it holds a node if and only if the
/// roster holds it as reachable and silent past the timeout.
pub proof fn lemma_expired_contains(s: Seq<NodeView>, now: u128, timeout_millis: u64)
    ensures
        forall|x: NodeView|
            #[trigger] spec_expired(s, now, timeout_millis).contains(x) <==> (s.contains(x)
                && node_stale(x, now, timeout_millis)),
    decreases s.len(),
{
    if s.len() > 0 {
        lemma_expired_contains(s.drop_last(), now, timeout_millis);
        let ex = spec_expired(s, now, timeout_millis);
        let pre = spec_expired(s.drop_last(), now, timeout_millis);
        assert forall|x: NodeView| #[trigger] ex.contains(x) implies (s.contains(x) && node_stale(
            x,
            now,
            timeout_millis,
        )) by {
            if node_stale(s.last(), now, timeout_millis) && x == s.last() {
                assert(s.contains(x));
            } else {
                assert(pre.contains(x));
                let i = choose|i: int| 0 <= i < s.drop_last().len() && s.drop_last()[i] == x;
                assert(s[i] == x);
            }
        }
        assert forall|x: NodeView| s.contains(x) && node_stale(x, now, timeout_millis) implies
            #[trigger] ex.contains(x) by {
            let i = choose|i: int| 0 <= i < s.len() && s[i] == x;
            if i < s.len() - 1 {
                assert(s.drop_last()[i] == x);
                assert(pre.contains(x));
                if node_stale(s.last(), now, timeout_millis) {
                    let j = choose|j: int| 0 <= j < pre.len() && pre[j] == x;
                    assert(ex[j] == x);
                }
            } else {
                assert(x == s.last());
                assert(ex[ex.len() - 1] == x);
            }
        }
    }
}

/// Every picked node stood in the roster.
proof fn lemma_expired_from(s: Seq<NodeView>, now: u128, timeout_millis: u64)
    ensures
        forall|j: int|
            0 <= j < spec_expired(s, now, timeout_millis).len() ==> s.contains(
                #[trigger] spec_expired(s, now, timeout_millis)[j],
            ) && node_stale(spec_expired(s, now, timeout_millis)[j], now, timeout_millis),
    decreases s.len(),
{
    if s.len() > 0 {
        lemma_expired_from(s.drop_last(), now, timeout_millis);
        let ex = spec_expired(s, now, timeout_millis);
        let pre = spec_expired(s.drop_last(), now, timeout_millis);
        assert forall|j: int| 0 <= j < ex.len() implies s.contains(#[trigger] ex[j]) && node_stale(
            ex[j],
            now,
            timeout_millis,
        ) by {
            if j < pre.len() {
                assert(ex[j] == pre[j]);
                assert(s.drop_last().contains(pre[j]));
                let i = choose|i: int| 0 <= i < s.drop_last().len() && s.drop_last()[i] == pre[j];
                assert(s[i] == pre[j]);
            } else {
                assert(ex[j] == s.last());
            }
        }
    }
}

/// The sweeper names each stale node exactly once per sweep.
///
/// This is the expiry law: on a well-formed roster the picked list
/// holds exactly the reachable nodes silent past the timeout, and no
/// id twice, so one `InActive` command goes out per stale node per
/// cycle.
pub proof fn lemma_expiry_correctness(s: Seq<NodeView>, now: u128, timeout_millis: u64)
    requires
        wf_roster(s),
    ensures
        forall|x: NodeView|
            #[trigger] spec_expired(s, now, timeout_millis).contains(x) <==> (s.contains(x)
                && node_stale(x, now, timeout_millis)),
        wf_roster(spec_expired(s, now, timeout_millis)),
    decreases s.len(),
{
    lemma_expired_contains(s, now, timeout_millis);
    if s.len() > 0 {
        assert(wf_roster(s.drop_last()));
        lemma_expiry_correctness(s.drop_last(), now, timeout_millis);
        lemma_expired_from(s.drop_last(), now, timeout_millis);
        let ex = spec_expired(s, now, timeout_millis);
        let pre = spec_expired(s.drop_last(), now, timeout_millis);
        assert forall|i: int, j: int| 0 <= i < j < ex.len() implies ex[i].id != ex[j].id by {
            if j < pre.len() {
                assert(ex[i] == pre[i] && ex[j] == pre[j]);
            } else {
                assert(ex[i] == pre[i]);
                let k = choose|k: int|
                    0 <= k < s.drop_last().len() && s.drop_last()[k] == pre[i];
                assert(s[k] == pre[i]);
                assert(ex[j] == s[s.len() - 1]);
            }
        }
    }
}

/// The registry of known nodes.  One owner applies commands in arrival
/// order; readers take snapshots.
#[derive(Debug)]
pub struct NodeHolder {
    node_list: Vec<Node>,
    timeout_millis: u64,
}

impl View for NodeHolder {
    type V = Seq<NodeView>;

    closed spec fn view(&self) -> Seq<NodeView> {
        node_views(self.node_list@)
    }
}

impl NodeHolder {
    /// The timeout the sweeper judges nodes by.
    pub closed spec fn spec_timeout_millis(&self) -> u64 {
        self.timeout_millis
    }

    /// An empty roster with the default timeout.
    pub fn new() -> (r: Self)
        ensures
            r@ == Seq::<NodeView>::empty(),
            r.spec_timeout_millis() == DEFAULT_NODE_TIMEOUT_MILLIS,
    {
        NodeHolder::with_timeout(DEFAULT_NODE_TIMEOUT_MILLIS)
    }

    /// An empty roster judging nodes by the given timeout, so that a
    /// configured `node_timeout` can reach the sweeper.
    pub fn with_timeout(timeout_millis: u64) -> (r: Self)
        ensures
            r@ == Seq::<NodeView>::empty(),
            r.spec_timeout_millis() == timeout_millis,
    {
        let r = NodeHolder { node_list: Vec::new(), timeout_millis };
        proof {
            assert(r@ =~= Seq::<NodeView>::empty());
        }
        r
    }

    /// A snapshot of the roster.
    pub fn get_node_list(&self) -> (r: Vec<Node>)
        ensures
            node_views(r@) == self@,
    {
        let mut r: Vec<Node> = Vec::new();
        let mut i: usize = 0;
        while i < self.node_list.len()
            invariant
                0 <= i <= self.node_list@.len(),
                r@.len() == i,
                forall|j: int| 0 <= j < i ==> (#[trigger] r@[j])@ == node_views(self.node_list@)[j],
            decreases self.node_list@.len() - i,
        {
            r.push(self.node_list[i].clone());
            i = i + 1;
        }
        proof {
            assert(node_views(r@) =~= self@);
        }
        r
    }

    /// Replaces the roster wholesale, for seeding at startup.
    pub fn set_node_list(&mut self, node_list: Vec<Node>)
        ensures
            final(self)@ == node_views(node_list@),
            final(self).spec_timeout_millis() == old(self).spec_timeout_millis(),
    {
        self.node_list = node_list;
    }

    /// Deletes every entry carrying the given id.
    fn retain_not_id(&mut self, id: i64)
        ensures
            final(self)@ == spec_remove_id(old(self)@, id),
            final(self).spec_timeout_millis() == old(self).spec_timeout_millis(),
    {
        let ghost orig = self@;
        let ghost mut c: int = 0;
        let mut i: usize = 0;
        while i < self.node_list.len()
            invariant
                0 <= c <= orig.len(),
                i == spec_remove_id(orig.subrange(0, c), id).len(),
                self@ =~= spec_remove_id(orig.subrange(0, c), id) + orig.subrange(
                    c,
                    orig.len() as int,
                ),
                i <= self.node_list@.len(),
                self.timeout_millis == old(self).timeout_millis,
            decreases orig.len() - c,
        {
            let ghost pre = orig.subrange(0, c);
            let ghost cur = orig.subrange(0, c + 1);
            proof {
                assert(cur.drop_last() =~= pre);
                assert(cur.last() == orig[c]);
                assert(self@[i as int] == orig[c]);
            }
            if self.node_list[i].id == id {
                let ghost snap = self@;
                let ghost esnap = self.node_list@;
                self.node_list.remove(i);
                proof {
                    c = c + 1;
                    assert(cur =~= orig.subrange(0, c));
                    assert(spec_remove_id(cur, id) == spec_remove_id(pre, id));
                    assert(self.node_list@ == esnap.remove(i as int));
                    esnap.remove_ensures(i as int);
                    assert(snap == spec_remove_id(pre, id) + orig.subrange(
                        c - 1,
                        orig.len() as int,
                    ));
                    assert(i == spec_remove_id(pre, id).len());
                    assert forall|j: int| 0 <= j < self@.len() implies self@[j] == (spec_remove_id(
                        pre,
                        id,
                    ) + orig.subrange(c, orig.len() as int))[j] by {
                        let tgt = spec_remove_id(pre, id) + orig.subrange(c, orig.len() as int);
                        if j < i {
                            assert(self.node_list@[j] == esnap[j]);
                            assert(self@[j] == snap[j]);
                            assert(snap[j] == spec_remove_id(pre, id)[j]);
                            assert(tgt[j] == spec_remove_id(pre, id)[j]);
                        } else {
                            assert(self.node_list@[j] == esnap[j + 1]);
                            assert(self@[j] == snap[j + 1]);
                            let a = spec_remove_id(pre, id);
                            let b2 = orig.subrange(c - 1, orig.len() as int);
                            assert(snap[j + 1] == (a + b2)[j + 1]);
                            assert(a.len() == i);
                            assert(j + 1 >= a.len());
                            assert(j + 1 < (a + b2).len());
                            assert((a + b2)[j + 1] == b2[j + 1 - a.len()]);
                            assert(b2[j + 1 - i] == orig[c + j - i]);
                            assert(tgt[j] == orig.subrange(c, orig.len() as int)[j - i]);
                            assert(orig.subrange(c, orig.len() as int)[j - i] == orig[c + j - i]);
                        }
                    }
                    assert(self@.len() == self.node_list@.len());
                    assert(self@.len() == esnap.len() - 1);
                    assert(snap.len() == spec_remove_id(pre, id).len() + (orig.len() - (c - 1)));
                    assert(self@.len() == spec_remove_id(pre, id).len() + (orig.len() - c));
                    assert(self@ =~= spec_remove_id(pre, id) + orig.subrange(
                        c,
                        orig.len() as int,
                    ));
                    assert(self@ =~= spec_remove_id(orig.subrange(0, c), id) + orig.subrange(
                        c,
                        orig.len() as int,
                    ));
                }
            } else {
                i = i + 1;
                proof {
                    c = c + 1;
                    assert(orig[c - 1].id != id);
                    assert(spec_remove_id(orig.subrange(0, c), id) =~= spec_remove_id(pre, id)
                        + seq![orig[c - 1]]);
                    assert(self@ =~= spec_remove_id(orig.subrange(0, c), id) + orig.subrange(
                        c,
                        orig.len() as int,
                    ));
                }
            }
        }
        proof {
            assert(c == orig.len());
            assert(orig.subrange(0, orig.len() as int) =~= orig);
            assert(orig.subrange(orig.len() as int, orig.len() as int)
                =~= Seq::<NodeView>::empty());
            assert(self@ =~= spec_remove_id(orig, id));
        }
    }

    /// Applies one command at the given wall-clock reading.  The
    /// roster's id-uniqueness survives every command.
    pub fn apply(&mut self, op: NodeOperation, now: u128)
        ensures
            final(self)@ == spec_apply(old(self)@, op@, now),
            wf_roster(old(self)@) ==> wf_roster(final(self)@),
            final(self).spec_timeout_millis() == old(self).spec_timeout_millis(),
    {
        let ghost orig = self@;
        let ghost opv = op@;
        match op {
            NodeOperation::Remove(node) => {
                self.retain_not_id(node.id);
            },
            NodeOperation::InActive(mut node) => {
                self.retain_not_id(node.id);
                node.inactive();
                let ghost nv = node@;
                let ghost snap = self@;
                self.node_list.push(node);
                proof {
                    assert(self@ =~= snap + seq![nv]);
                }
            },
            NodeOperation::Active(mut node) => {
                self.retain_not_id(node.id);
                node.active();
                node.set_hit_timestamp(now);
                let ghost nv = node@;
                let ghost snap = self@;
                self.node_list.push(node);
                proof {
                    assert(self@ =~= snap + seq![nv]);
                }
            },
            NodeOperation::Init(node) => {
                self.retain_not_id(node.id);
                let ghost nv = node@;
                let ghost snap = self@;
                self.node_list.push(node);
                proof {
                    assert(self@ =~= snap + seq![nv]);
                }
            },
        }
        proof {
            if wf_roster(orig) {
                lemma_apply_preserves_uniqueness(orig, opv, now);
            }
        }
    }

    /// The first entry carrying the given name, if any.
    pub fn get_node(&self, name: String) -> (r: Option<Node>)
        ensures
            r is None <==> spec_find_named(self@, name@) == -1,
            r is Some ==> r.unwrap()@ == self@[spec_find_named(self@, name@)],
    {
        let mut j: usize = 0;
        while j < self.node_list.len()
            invariant
                0 <= j <= self.node_list@.len(),
                forall|k: int| 0 <= k < j ==> (#[trigger] self@[k]).name != name@,
            decreases self.node_list@.len() - j,
        {
            if self.node_list[j].name == name {
                proof {
                    lemma_find_named_at(self@, name@, j as int);
                }
                return Some(self.node_list[j].clone());
            }
            j = j + 1;
        }
        proof {
            lemma_find_named_at(self@, name@, self@.len() as int);
        }
        None
    }

    /// The first entry listening on the given port, if any.
    pub fn get_node_by_port(&self, port: u16) -> (r: Option<Node>)
        ensures
            r is None <==> spec_find_port(self@, port) == -1,
            r is Some ==> r.unwrap()@ == self@[spec_find_port(self@, port)],
    {
        let mut j: usize = 0;
        while j < self.node_list.len()
            invariant
                0 <= j <= self.node_list@.len(),
                forall|k: int| 0 <= k < j ==> (#[trigger] self@[k]).port != port,
            decreases self.node_list@.len() - j,
        {
            if self.node_list[j].port == port {
                proof {
                    lemma_find_port_at(self@, port, j as int);
                }
                return Some(self.node_list[j].clone());
            }
            j = j + 1;
        }
        proof {
            lemma_find_port_at(self@, port, self@.len() as int);
        }
        None
    }

    /// The first entry carrying both the given name and port, if any.
    pub fn get_node_by_name_and_port(&self, name: String, port: u16) -> (r: Option<Node>)
        ensures
            r is None <==> spec_find_named_port(self@, name@, port) == -1,
            r is Some ==> r.unwrap()@ == self@[spec_find_named_port(self@, name@, port)],
    {
        let mut j: usize = 0;
        while j < self.node_list.len()
            invariant
                0 <= j <= self.node_list@.len(),
                forall|k: int|
                    0 <= k < j ==> !((#[trigger] self@[k]).name == name@ && self@[k].port
                        == port),
            decreases self.node_list@.len() - j,
        {
            if self.node_list[j].port == port && self.node_list[j].name == name {
                proof {
                    lemma_find_named_port_at(self@, name@, port, j as int);
                }
                return Some(self.node_list[j].clone());
            }
            j = j + 1;
        }
        proof {
            lemma_find_named_port_at(self@, name@, port, self@.len() as int);
        }
        None
    }

    /// The nodes the sweeper should demote at the given reading:
    /// reachable entries silent for longer than the timeout, each once.
    pub fn expired_nodes(&self, now: u128) -> (r: Vec<Node>)
        ensures
            node_views(r@) == spec_expired(self@, now, self.spec_timeout_millis()),
    {
        let mut r: Vec<Node> = Vec::new();
        let mut i: usize = 0;
        while i < self.node_list.len()
            invariant
                0 <= i <= self.node_list@.len(),
                node_views(r@) =~= spec_expired(self@.subrange(0, i as int), now,
                    self.timeout_millis),
            decreases self.node_list@.len() - i,
        {
            let ghost pre = self@.subrange(0, i as int);
            let ghost cur = self@.subrange(0, i + 1);
            proof {
                assert(cur.drop_last() =~= pre);
                assert(cur.last() == self@[i as int]);
            }
            let n = &self.node_list[i];
            let stale = n.active && n.hit_timestamp < now
                && now - n.hit_timestamp > (self.timeout_millis as u128);
            proof {
                assert(stale == node_stale(self@[i as int], now, self.timeout_millis));
            }
            if stale {
                let ghost rsnap = node_views(r@);
                r.push(self.node_list[i].clone());
                proof {
                    assert(node_views(r@) =~= rsnap + seq![self@[i as int]]);
                }
            }
            i = i + 1;
        }
        proof {
            assert(self@.subrange(0, self@.len() as int) =~= self@);
        }
        r
    }
}

/// The index of the first entry carrying the given name, or -1.
pub open spec fn spec_find_named(s: Seq<NodeView>, name: Seq<char>) -> int
    decreases s.len(),
{
    if s.len() == 0 {
        -1
    } else if s[0].name == name {
        0
    } else {
        let r = spec_find_named(s.drop_first(), name);
        if r == -1 {
            -1
        } else {
            r + 1
        }
    }
}

proof fn lemma_find_named_at(s: Seq<NodeView>, name: Seq<char>, j: int)
    requires
        0 <= j <= s.len(),
        forall|k: int| 0 <= k < j ==> (#[trigger] s[k]).name != name,
        j < s.len() ==> s[j].name == name,
    ensures
        spec_find_named(s, name) == if j == s.len() {
            -1
        } else {
            j
        },
    decreases s.len(),
{
    if s.len() == 0 {
    } else if s[0].name == name {
        assert(j == 0);
    } else {
        assert(j >= 1);
        assert forall|k: int| 0 <= k < j - 1 implies (#[trigger] s.drop_first()[k]).name
            != name by {
            assert(s.drop_first()[k] == s[k + 1]);
        }
        lemma_find_named_at(s.drop_first(), name, j - 1);
    }
}

/// The index of the first entry listening on the given port, or -1.
pub open spec fn spec_find_port(s: Seq<NodeView>, port: u16) -> int
    decreases s.len(),
{
    if s.len() == 0 {
        -1
    } else if s[0].port == port {
        0
    } else {
        let r = spec_find_port(s.drop_first(), port);
        if r == -1 {
            -1
        } else {
            r + 1
        }
    }
}

proof fn lemma_find_port_at(s: Seq<NodeView>, port: u16, j: int)
    requires
        0 <= j <= s.len(),
        forall|k: int| 0 <= k < j ==> (#[trigger] s[k]).port != port,
        j < s.len() ==> s[j].port == port,
    ensures
        spec_find_port(s, port) == if j == s.len() {
            -1
        } else {
            j
        },
    decreases s.len(),
{
    if s.len() == 0 {
    } else if s[0].port == port {
        assert(j == 0);
    } else {
        assert(j >= 1);
        assert forall|k: int| 0 <= k < j - 1 implies (#[trigger] s.drop_first()[k]).port
            != port by {
            assert(s.drop_first()[k] == s[k + 1]);
        }
        lemma_find_port_at(s.drop_first(), port, j - 1);
    }
}

/// The index of the first entry carrying both name and port, or -1.
pub open spec fn spec_find_named_port(s: Seq<NodeView>, name: Seq<char>, port: u16) -> int
    decreases s.len(),
{
    if s.len() == 0 {
        -1
    } else if s[0].name == name && s[0].port == port {
        0
    } else {
        let r = spec_find_named_port(s.drop_first(), name, port);
        if r == -1 {
            -1
        } else {
            r + 1
        }
    }
}

proof fn lemma_find_named_port_at(s: Seq<NodeView>, name: Seq<char>, port: u16, j: int)
    requires
        0 <= j <= s.len(),
        forall|k: int| 0 <= k < j ==> !((#[trigger] s[k]).name == name && s[k].port == port),
        j < s.len() ==> (s[j].name == name && s[j].port == port),
    ensures
        spec_find_named_port(s, name, port) == if j == s.len() {
            -1
        } else {
            j
        },
    decreases s.len(),
{
    if s.len() == 0 {
    } else if s[0].name == name && s[0].port == port {
        assert(j == 0);
    } else {
        assert(j >= 1);
        assert forall|k: int| 0 <= k < j - 1 implies !((#[trigger] s.drop_first()[k]).name == name
            && s.drop_first()[k].port == port) by {
            assert(s.drop_first()[k] == s[k + 1]);
        }
        lemma_find_named_port_at(s.drop_first(), name, port, j - 1);
    }
}

} // verus!
