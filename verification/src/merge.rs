//! Merging image layers with union-filesystem whiteout semantics.
//!
//! Each layer is a sequence of tar entries.  An entry whose file name is
//! `.wh..wh..opq` hides everything previously present inside its directory;
//! one whose file name starts with `.wh.` deletes the sibling path named
//! after the marker; every other entry writes a file, directory or link.
//! Layers must be applied in manifest order — a whiteout only affects
//! content written before it — and entries in archive order.
//!
//! The merged tree is modelled as a map from path components to nodes;
//! [`extraction_plan`] turns the ordered layers into the ordered list of
//! filesystem operations whose effect is exactly that map.

use vstd::prelude::*;

use crate::json::bytes_eq;
use crate::tar::{entries_view, TarEntry, TarEntryV};

verus! {

/// A node of the merged tree.
pub enum FsNode {
    File { data: Vec<u8>, mode: u64 },
    Dir { mode: u64 },
    Symlink { target: Vec<u8>, mode: u64 },
    Hardlink { target: Vec<u8>, mode: u64 },
}

/// Model of an [`FsNode`].
pub enum NodeV {
    File { data: Seq<u8>, mode: int },
    Dir { mode: int },
    Symlink { target: Seq<u8>, mode: int },
    Hardlink { target: Seq<u8>, mode: int },
}

pub open spec fn node_view(n: FsNode) -> NodeV {
    match n {
        FsNode::File { data, mode } => NodeV::File { data: data@, mode: mode as int },
        FsNode::Dir { mode } => NodeV::Dir { mode: mode as int },
        FsNode::Symlink { target, mode } => NodeV::Symlink {
            target: target@,
            mode: mode as int,
        },
        FsNode::Hardlink { target, mode } => NodeV::Hardlink {
            target: target@,
            mode: mode as int,
        },
    }
}

/// First index at or after `i` that holds a slash, or the end.
pub open spec fn comp_end(p: Seq<u8>, i: int) -> int
    decreases p.len() - i,
{
    if 0 <= i < p.len() && p[i] != 47 {
        comp_end(p, i + 1)
    } else {
        i
    }
}

pub open spec fn dot() -> Seq<u8> {
    seq![46u8]
}

pub open spec fn dotdot() -> Seq<u8> {
    seq![46u8, 46u8]
}

/// The path components of an entry name: split on slashes, empty and `.`
/// components dropped.
pub open spec fn sp_components(p: Seq<u8>, i: int) -> Seq<Seq<u8>>
    decreases p.len() - i, 1int,
{
    if i < 0 || i >= p.len() {
        Seq::empty()
    } else if p[i] == 47 {
        sp_components(p, i + 1)
    } else {
        let e = comp_end(p, i);
        let e2 = if i < e <= p.len() {
            e
        } else {
            i + 1
        };
        let c = p.subrange(i, e2);
        if c == dot() {
            sp_components(p, e2)
        } else {
            seq![c] + sp_components(p, e2)
        }
    }
}

proof fn lemma_comp_end(p: Seq<u8>, i: int)
    requires
        0 <= i <= p.len(),
    ensures
        i <= comp_end(p, i) <= p.len(),
        forall|k: int| i <= k < comp_end(p, i) ==> p[k] != 47,
        comp_end(p, i) < p.len() ==> p[comp_end(p, i)] == 47,
    decreases p.len() - i,
{
    if i < p.len() && p[i] != 47 {
        lemma_comp_end(p, i + 1);
    }
}

/// `.wh.`, the whiteout marker prefix.
pub open spec fn wh_prefix() -> Seq<u8> {
    seq![46u8, 119u8, 104u8, 46u8]
}

/// `.wh..wh..opq`, the opaque-whiteout marker name.
pub open spec fn opq_marker() -> Seq<u8> {
    seq![46u8, 119u8, 104u8, 46u8, 46u8, 119u8, 104u8, 46u8, 46u8, 111u8, 112u8, 113u8]
}

/// The node an ordinary tar entry writes, by its type flag; `None` for
/// entry kinds the merge ignores.
pub open spec fn node_of(e: TarEntryV) -> Option<NodeV> {
    if e.kind == 0 || e.kind == 48 {
        Some(NodeV::File { data: e.data, mode: e.mode })
    } else if e.kind == 53 {
        Some(NodeV::Dir { mode: e.mode })
    } else if e.kind == 50 {
        Some(NodeV::Symlink { target: e.link, mode: e.mode })
    } else if e.kind == 49 {
        Some(NodeV::Hardlink { target: e.link, mode: e.mode })
    } else {
        None
    }
}

/// One effect on the merged tree.
pub enum EntryActV {
    /// Write (or overwrite) a node at a path.
    Write { path: Seq<Seq<u8>>, node: NodeV },
    /// Delete the path and everything below it.
    Whiteout { path: Seq<Seq<u8>> },
    /// Delete everything strictly below the directory.
    Opaque { dir: Seq<Seq<u8>> },
    /// No effect.
    Skip,
}

/// How one tar entry acts on the merged tree.  The opaque marker is
/// recognised before the plain whiteout prefix, which it also carries.
/// An entry whose path climbs out of the target through a `..` component
/// has no effect: nothing may touch anything outside the target.
pub open spec fn sp_classify(e: TarEntryV) -> EntryActV {
    let c = sp_components(e.path, 0);
    if c.len() == 0 || c.contains(dotdot()) {
        EntryActV::Skip
    } else if c.last() == opq_marker() {
        EntryActV::Opaque { dir: c.drop_last() }
    } else if c.last().len() >= 4 && c.last().take(4) == wh_prefix() {
        EntryActV::Whiteout { path: c.drop_last().push(c.last().skip(4)) }
    } else {
        match node_of(e) {
            Some(n) => EntryActV::Write { path: c, node: n },
            None => EntryActV::Skip,
        }
    }
}

/// Whether the path `k` is `p` itself or lies below it.
pub open spec fn starts_with(k: Seq<Seq<u8>>, p: Seq<Seq<u8>>) -> bool {
    p.len() <= k.len() && k.take(p.len() as int) == p
}

/// The merged tree after one effect.
pub open spec fn sp_apply_act(m: Map<Seq<Seq<u8>>, NodeV>, a: EntryActV) -> Map<
    Seq<Seq<u8>>,
    NodeV,
> {
    match a {
        EntryActV::Write { path, node } => m.insert(path, node),
        EntryActV::Whiteout { path } => Map::new(
            |k: Seq<Seq<u8>>| m.dom().contains(k) && !starts_with(k, path),
            |k: Seq<Seq<u8>>| m[k],
        ),
        EntryActV::Opaque { dir } => Map::new(
            |k: Seq<Seq<u8>>| m.dom().contains(k) && !(starts_with(k, dir) && k.len()
                > dir.len()),
            |k: Seq<Seq<u8>>| m[k],
        ),
        EntryActV::Skip => m,
    }
}

/// The merged tree after one layer, its entries applied in archive order.
pub open spec fn sp_apply_layer(m: Map<Seq<Seq<u8>>, NodeV>, es: Seq<TarEntryV>) -> Map<
    Seq<Seq<u8>>,
    NodeV,
>
    decreases es.len(),
{
    if es.len() == 0 {
        m
    } else {
        sp_apply_layer(sp_apply_act(m, sp_classify(es.first())), es.drop_first())
    }
}

/// The merged tree of a whole image: the layers applied strictly in
/// manifest order, each on the result of those before it.
pub open spec fn sp_merge(m: Map<Seq<Seq<u8>>, NodeV>, layers: Seq<Seq<TarEntryV>>) -> Map<
    Seq<Seq<u8>>,
    NodeV,
>
    decreases layers.len(),
{
    if layers.len() == 0 {
        m
    } else {
        sp_merge(sp_apply_layer(m, layers.first()), layers.drop_first())
    }
}

/// A whiteout deletes its target and everything below it — and nothing
/// else; deleting an absent target changes nothing, so the deletion is
/// idempotent.
pub proof fn lemma_whiteout_removes(m: Map<Seq<Seq<u8>>, NodeV>, p: Seq<Seq<u8>>)
    ensures
        forall|k: Seq<Seq<u8>>| starts_with(k, p) ==> !sp_apply_act(
            m,
            EntryActV::Whiteout { path: p },
        ).dom().contains(k),
        forall|k: Seq<Seq<u8>>| !starts_with(k, p) ==> (sp_apply_act(
            m,
            EntryActV::Whiteout { path: p },
        ).dom().contains(k) == m.dom().contains(k)),
        forall|k: Seq<Seq<u8>>| !starts_with(k, p) && m.dom().contains(k) ==> sp_apply_act(
            m,
            EntryActV::Whiteout { path: p },
        )[k] == m[k],
        (forall|k: Seq<Seq<u8>>| m.dom().contains(k) ==> !starts_with(k, p)) ==> sp_apply_act(
            m,
            EntryActV::Whiteout { path: p },
        ) == m,
{
    if forall|k: Seq<Seq<u8>>| m.dom().contains(k) ==> !starts_with(k, p) {
        assert(sp_apply_act(m, EntryActV::Whiteout { path: p }) =~= m);
    }
}

/// Deleting the same path twice is the same as deleting it once: after
/// the first whiteout nothing under the path is left to delete.
pub proof fn lemma_whiteout_idempotent(m: Map<Seq<Seq<u8>>, NodeV>, p: Seq<Seq<u8>>)
    ensures
        sp_apply_act(sp_apply_act(m, EntryActV::Whiteout { path: p }), EntryActV::Whiteout {
            path: p,
        }) == sp_apply_act(m, EntryActV::Whiteout { path: p }),
{
    let once = sp_apply_act(m, EntryActV::Whiteout { path: p });
    assert(sp_apply_act(once, EntryActV::Whiteout { path: p }) =~= once);
}

/// An opaque whiteout clears everything strictly inside its directory and
/// keeps everything else, the directory itself included.
pub proof fn lemma_opaque_clears(m: Map<Seq<Seq<u8>>, NodeV>, d: Seq<Seq<u8>>)
    ensures
        forall|k: Seq<Seq<u8>>| starts_with(k, d) && k.len() > d.len() ==> !sp_apply_act(
            m,
            EntryActV::Opaque { dir: d },
        ).dom().contains(k),
        forall|k: Seq<Seq<u8>>| !(starts_with(k, d) && k.len() > d.len()) ==> (sp_apply_act(
            m,
            EntryActV::Opaque { dir: d },
        ).dom().contains(k) == m.dom().contains(k)),
        forall|k: Seq<Seq<u8>>| !(starts_with(k, d) && k.len() > d.len()) && m.dom().contains(k)
            ==> sp_apply_act(m, EntryActV::Opaque { dir: d })[k] == m[k],
{
}

/// The effects of one layer's entries, in archive order, entries without
/// an effect left out.
pub open spec fn sp_layer_acts(es: Seq<TarEntryV>) -> Seq<EntryActV>
    decreases es.len(),
{
    if es.len() == 0 {
        Seq::empty()
    } else {
        let a = sp_classify(es.first());
        let rest = sp_layer_acts(es.drop_first());
        if a is Skip {
            rest
        } else {
            seq![a] + rest
        }
    }
}

/// The effects of all layers, strictly in manifest order.
pub open spec fn sp_all_acts(layers: Seq<Seq<TarEntryV>>) -> Seq<EntryActV>
    decreases layers.len(),
{
    if layers.len() == 0 {
        Seq::empty()
    } else {
        sp_layer_acts(layers.first()) + sp_all_acts(layers.drop_first())
    }
}

/// The tree that results from a list of effects applied in order.
pub open spec fn sp_plan_tree(m: Map<Seq<Seq<u8>>, NodeV>, acts: Seq<EntryActV>) -> Map<
    Seq<Seq<u8>>,
    NodeV,
>
    decreases acts.len(),
{
    if acts.len() == 0 {
        m
    } else {
        sp_plan_tree(sp_apply_act(m, acts.first()), acts.drop_first())
    }
}

proof fn lemma_layer_acts_snoc(es: Seq<TarEntryV>, x: TarEntryV)
    ensures
        sp_layer_acts(es.push(x)) == sp_layer_acts(es) + (if sp_classify(x) is Skip {
            Seq::<EntryActV>::empty()
        } else {
            seq![sp_classify(x)]
        }),
    decreases es.len(),
{
    if es.len() == 0 {
        assert(es.push(x).first() == x);
        assert(es.push(x).drop_first() =~= Seq::<TarEntryV>::empty());
        assert(sp_layer_acts(Seq::<TarEntryV>::empty()) == Seq::<EntryActV>::empty());
        assert(sp_layer_acts(es) == Seq::<EntryActV>::empty());
        if sp_classify(x) is Skip {
            assert(sp_layer_acts(es.push(x)) =~= sp_layer_acts(es) + Seq::<EntryActV>::empty());
        } else {
            assert(sp_layer_acts(es.push(x)) =~= sp_layer_acts(es) + seq![sp_classify(x)]);
        }
    } else {
        assert(es.push(x).first() == es.first());
        assert(es.push(x).drop_first() =~= es.drop_first().push(x));
        lemma_layer_acts_snoc(es.drop_first(), x);
        let a = sp_classify(es.first());
        let tail = if sp_classify(x) is Skip {
            Seq::<EntryActV>::empty()
        } else {
            seq![sp_classify(x)]
        };
        if !(a is Skip) {
            assert(seq![a] + (sp_layer_acts(es.drop_first()) + tail) =~= (seq![a]
                + sp_layer_acts(es.drop_first())) + tail);
        }
    }
}

proof fn lemma_all_acts_snoc(layers: Seq<Seq<TarEntryV>>, x: Seq<TarEntryV>)
    ensures
        sp_all_acts(layers.push(x)) == sp_all_acts(layers) + sp_layer_acts(x),
    decreases layers.len(),
{
    if layers.len() == 0 {
        assert(layers.push(x).first() == x);
        assert(layers.push(x).drop_first() =~= Seq::<Seq<TarEntryV>>::empty());
        assert(sp_all_acts(Seq::<Seq<TarEntryV>>::empty()) == Seq::<EntryActV>::empty());
        assert(sp_all_acts(layers) == Seq::<EntryActV>::empty());
        assert(sp_all_acts(layers.push(x)) =~= sp_all_acts(layers) + sp_layer_acts(x));
    } else {
        assert(layers.push(x).first() == layers.first());
        assert(layers.push(x).drop_first() =~= layers.drop_first().push(x));
        lemma_all_acts_snoc(layers.drop_first(), x);
        assert(sp_layer_acts(layers.first()) + (sp_all_acts(layers.drop_first())
            + sp_layer_acts(x)) =~= (sp_layer_acts(layers.first()) + sp_all_acts(
            layers.drop_first(),
        )) + sp_layer_acts(x));
    }
}

proof fn lemma_plan_tree_concat(m: Map<Seq<Seq<u8>>, NodeV>, a: Seq<EntryActV>, b: Seq<EntryActV>)
    ensures
        sp_plan_tree(m, a + b) == sp_plan_tree(sp_plan_tree(m, a), b),
    decreases a.len(),
{
    if a.len() == 0 {
        assert(a + b =~= b);
    } else {
        assert((a + b).first() == a.first());
        assert((a + b).drop_first() =~= a.drop_first() + b);
        lemma_plan_tree_concat(sp_apply_act(m, a.first()), a.drop_first(), b);
    }
}

proof fn lemma_plan_tree_layer(m: Map<Seq<Seq<u8>>, NodeV>, es: Seq<TarEntryV>)
    ensures
        sp_plan_tree(m, sp_layer_acts(es)) == sp_apply_layer(m, es),
    decreases es.len(),
{
    if es.len() > 0 {
        let a = sp_classify(es.first());
        if a is Skip {
            assert(sp_apply_act(m, a) == m);
            lemma_plan_tree_layer(m, es.drop_first());
        } else {
            assert((seq![a] + sp_layer_acts(es.drop_first())).first() == a);
            assert((seq![a] + sp_layer_acts(es.drop_first())).drop_first() =~= sp_layer_acts(
                es.drop_first(),
            ));
            lemma_plan_tree_layer(sp_apply_act(m, a), es.drop_first());
        }
    }
}

/// The effects of the layers, applied in order, merge the layers: the
/// plan's outcome is the union-filesystem tree.
pub proof fn lemma_plan_merges(m: Map<Seq<Seq<u8>>, NodeV>, layers: Seq<Seq<TarEntryV>>)
    ensures
        sp_plan_tree(m, sp_all_acts(layers)) == sp_merge(m, layers),
    decreases layers.len(),
{
    if layers.len() > 0 {
        lemma_plan_tree_concat(m, sp_layer_acts(layers.first()), sp_all_acts(layers.drop_first()));
        lemma_plan_tree_layer(m, layers.first());
        lemma_plan_merges(sp_apply_layer(m, layers.first()), layers.drop_first());
    }
}

pub open spec fn comps_view(s: Seq<Vec<u8>>) -> Seq<Seq<u8>> {
    Seq::new(s.len(), |i: int| s[i]@)
}

/// Split an entry path into its components.
pub fn split_path(p: &Vec<u8>) -> (r: Vec<Vec<u8>>)
    ensures
        comps_view(r@) == sp_components(p@, 0),
{
    let n = p.len();
    let mut acc: Vec<Vec<u8>> = Vec::new();
    let mut i: usize = 0;
    proof {
        assert(comps_view(acc@) =~= Seq::<Seq<u8>>::empty());
    }
    while i < n
        invariant
            i <= n,
            n == p@.len(),
            sp_components(p@, 0) == comps_view(acc@) + sp_components(p@, i as int),
        decreases n - i,
    {
        if p[i] == 47 {
            i = i + 1;
        } else {
            let mut e = i;
            while e < n && p[e] != 47
                invariant
                    i <= e <= n,
                    n == p@.len(),
                    comp_end(p@, i as int) == comp_end(p@, e as int),
                decreases n - e,
            {
                e = e + 1;
            }
            proof {
                assert(comp_end(p@, e as int) == e);
                lemma_comp_end(p@, i as int);
            }
            let c = crate::json::copy_range(p, i, e);
            if e - i == 1 && p[i] == 46 {
                proof {
                    assert(c@ =~= dot());
                }
            } else {
                proof {
                    if c@ == dot() {
                        assert(c@.len() == 1 && c@[0] == 46);
                        assert(p@[i as int] == 46);
                    }
                }
                let ghost prev = acc@;
                acc.push(c);
                proof {
                    assert(comps_view(acc@) =~= comps_view(prev).push(p@.subrange(
                        i as int,
                        e as int,
                    )));
                }
            }
            i = e;
        }
    }
    proof {
        assert(comps_view(acc@) + Seq::<Seq<u8>>::empty() =~= comps_view(acc@));
    }
    acc
}

/// One operation of the extraction plan, the executable counterpart of a
/// non-trivial [`EntryActV`].
pub enum FsOp {
    /// Write (or overwrite) a node at a path under the target directory.
    Write { path: Vec<Vec<u8>>, node: FsNode },
    /// Delete the path and everything below it; absent targets are fine.
    RemoveAll { path: Vec<Vec<u8>> },
    /// Delete everything strictly inside the directory.
    ClearDir { dir: Vec<Vec<u8>> },
}

pub open spec fn op_view(op: FsOp) -> EntryActV {
    match op {
        FsOp::Write { path, node } => EntryActV::Write {
            path: comps_view(path@),
            node: node_view(node),
        },
        FsOp::RemoveAll { path } => EntryActV::Whiteout { path: comps_view(path@) },
        FsOp::ClearDir { dir } => EntryActV::Opaque { dir: comps_view(dir@) },
    }
}

pub open spec fn ops_view(s: Seq<FsOp>) -> Seq<EntryActV> {
    Seq::new(s.len(), |i: int| op_view(s[i]))
}

fn clone_bytes(v: &Vec<u8>) -> (r: Vec<u8>)
    ensures
        r@ == v@,
{
    crate::json::copy_range(v, 0, v.len())
}

/// The plan operation of one tar entry, or `None` for entries without an
/// effect on the tree.
pub fn classify(e: &TarEntry) -> (r: Option<FsOp>)
    ensures
        match r {
            Some(op) => op_view(op) == sp_classify(crate::tar::entry_view(*e)),
            None => sp_classify(crate::tar::entry_view(*e)) is Skip,
        },
{
    let comps = split_path(&e.path);
    let n = comps.len();
    if n == 0 {
        return None;
    }
    let m_dotdot: [u8; 2] = [46, 46];
    let mut j: usize = 0;
    while j < n
        invariant
            j <= n,
            n == comps@.len(),
            m_dotdot@ =~= dotdot(),
            comps_view(comps@) == sp_components(e.path@, 0),
            forall|k: int| 0 <= k < j ==> comps@[k]@ != dotdot(),
        decreases n - j,
    {
        if bytes_eq(&comps[j], m_dotdot.as_slice()) {
            proof {
                assert(comps_view(comps@)[j as int] == dotdot());
                assert(comps_view(comps@).contains(dotdot()));
            }
            return None;
        }
        j = j + 1;
    }
    proof {
        assert(forall|k: int|
            0 <= k < comps_view(comps@).len() ==> comps_view(comps@)[k] != dotdot());
        assert(!comps_view(comps@).contains(dotdot()));
        assert(comps_view(comps@).len() == n);
        assert(comps_view(comps@).last() == comps@[n - 1]@);
    }
    let last = &comps[n - 1];
    let m_opq: [u8; 12] = [46, 119, 104, 46, 46, 119, 104, 46, 46, 111, 112, 113];
    let is_opq = bytes_eq(last, m_opq.as_slice());
    proof {
        assert(m_opq@ =~= opq_marker());
    }
    if is_opq {
        let mut parent: Vec<Vec<u8>> = Vec::new();
        let mut j: usize = 0;
        while j < n - 1
            invariant
                j <= n - 1,
                n == comps@.len(),
                parent@.len() == j,
                forall|t: int| 0 <= t < j ==> parent@[t]@ == comps@[t]@,
            decreases n - 1 - j,
        {
            parent.push(clone_bytes(&comps[j]));
            j = j + 1;
        }
        proof {
            assert(comps_view(parent@) =~= comps_view(comps@).drop_last());
        }
        return Some(FsOp::ClearDir { dir: parent });
    }
    let is_wh = last.len() >= 4 && last[0] == 46 && last[1] == 119 && last[2] == 104 && last[3]
        == 46;
    proof {
        if last@.len() >= 4 {
            if is_wh {
                assert(last@.take(4) =~= wh_prefix());
            } else {
                assert(last@.take(4) != wh_prefix()) by {
                    if last@.take(4) == wh_prefix() {
                        assert(last@[0] == 46 && last@[1] == 119 && last@[2] == 104 && last@[3]
                            == 46);
                    }
                }
            }
        }
    }
    if is_wh {
        let mut parent: Vec<Vec<u8>> = Vec::new();
        let mut j: usize = 0;
        while j < n - 1
            invariant
                j <= n - 1,
                n == comps@.len(),
                parent@.len() == j,
                forall|t: int| 0 <= t < j ==> parent@[t]@ == comps@[t]@,
            decreases n - 1 - j,
        {
            parent.push(clone_bytes(&comps[j]));
            j = j + 1;
        }
        let target = crate::json::copy_range(last, 4, last.len());
        proof {
            assert(target@ =~= comps_view(comps@).last().skip(4));
        }
        parent.push(target);
        proof {
            assert(comps_view(parent@) =~= comps_view(comps@).drop_last().push(
                comps_view(comps@).last().skip(4),
            ));
        }
        return Some(FsOp::RemoveAll { path: parent });
    }
    let node: FsNode = if e.kind == 0 || e.kind == 48 {
        FsNode::File { data: clone_bytes(&e.data), mode: e.mode }
    } else if e.kind == 53 {
        FsNode::Dir { mode: e.mode }
    } else if e.kind == 50 {
        FsNode::Symlink { target: clone_bytes(&e.link), mode: e.mode }
    } else if e.kind == 49 {
        FsNode::Hardlink { target: clone_bytes(&e.link), mode: e.mode }
    } else {
        return None;
    };
    Some(FsOp::Write { path: comps, node })
}

pub open spec fn layers_view(s: Seq<Vec<TarEntry>>) -> Seq<Seq<TarEntryV>> {
    Seq::new(s.len(), |i: int| entries_view(s[i]@))
}

/// The ordered extraction plan of an image: the effects of every layer,
/// strictly in manifest order, each layer's entries in archive order.
/// Executing the operations in this order yields exactly the merged tree
/// [`sp_merge`]; no other order is produced.
pub fn extraction_plan(layers: &Vec<Vec<TarEntry>>) -> (r: Vec<FsOp>)
    ensures
        ops_view(r@) == sp_all_acts(layers_view(layers@)),
        sp_plan_tree(Map::<Seq<Seq<u8>>, NodeV>::empty(), ops_view(r@)) == sp_merge(
            Map::<Seq<Seq<u8>>, NodeV>::empty(),
            layers_view(layers@),
        ),
{
    let ln = layers.len();
    let mut ops: Vec<FsOp> = Vec::new();
    let mut li: usize = 0;
    proof {
        assert(ops_view(ops@) =~= Seq::<EntryActV>::empty());
        assert(layers_view(layers@).take(0) =~= Seq::<Seq<TarEntryV>>::empty());
    }
    while li < ln
        invariant
            li <= ln,
            ln == layers@.len(),
            ops_view(ops@) == sp_all_acts(layers_view(layers@).take(li as int)),
        decreases ln - li,
    {
        let layer = &layers[li];
        let en = layer.len();
        let mut ei: usize = 0;
        proof {
            assert(entries_view(layer@).take(0) =~= Seq::<TarEntryV>::empty());
        }
        let ghost ops0 = ops_view(ops@);
        while ei < en
            invariant
                ei <= en,
                en == layer@.len(),
                layer == &layers@[li as int],
                li < ln == layers@.len(),
                ops_view(ops@) == ops0 + sp_layer_acts(entries_view(layer@).take(ei as int)),
            decreases en - ei,
        {
            let ghost before = ops_view(ops@);
            let ghost esv = entries_view(layer@);
            match classify(&layer[ei]) {
                Some(op) => {
                    let ghost a = op_view(op);
                    ops.push(op);
                    proof {
                        assert(ops_view(ops@) =~= before.push(a));
                        assert(esv.take(ei + 1) =~= esv.take(ei as int).push(esv[ei as int]));
                        lemma_layer_acts_snoc(esv.take(ei as int), esv[ei as int]);
                        assert(before.push(a) =~= before + seq![a]);
                        assert(ops0 + (sp_layer_acts(esv.take(ei as int)) + seq![a]) =~= (ops0
                            + sp_layer_acts(esv.take(ei as int))) + seq![a]);
                    }
                }
                None => {
                    proof {
                        assert(esv.take(ei + 1) =~= esv.take(ei as int).push(esv[ei as int]));
                        lemma_layer_acts_snoc(esv.take(ei as int), esv[ei as int]);
                        assert(ops0 + (sp_layer_acts(esv.take(ei as int))
                            + Seq::<EntryActV>::empty()) =~= ops0 + sp_layer_acts(
                            esv.take(ei as int),
                        ));
                    }
                }
            }
            ei = ei + 1;
        }
        proof {
            let lv = layers_view(layers@);
            assert(entries_view(layer@).take(en as int) =~= entries_view(layer@));
            assert(lv.take(li + 1) =~= lv.take(li as int).push(lv[li as int]));
            lemma_all_acts_snoc(lv.take(li as int), lv[li as int]);
            assert(lv[li as int] == entries_view(layer@));
        }
        li = li + 1;
    }
    proof {
        assert(layers_view(layers@).take(ln as int) =~= layers_view(layers@));
        lemma_plan_merges(Map::<Seq<Seq<u8>>, NodeV>::empty(), layers_view(layers@));
    }
    ops
}

} // verus!
