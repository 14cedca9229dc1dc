//! Keyed lists of nodes.

use crate::keys::decimal;
use crate::keys::index_key;
use crate::keys::index_keys;
use crate::keys::keyed;
use crate::keys::strings_view;
use crate::model::lemma_nodes_size;
use crate::model::list_html;
use crate::model::list_move_before_effects;
use crate::model::list_move_to_last_effects;
use crate::model::ListModel;
use crate::model::option_size;
use crate::model::same;
use crate::model::size;
use crate::model::Tree;
use crate::ordered::find;
use crate::ordered::key_order;
use crate::ordered::lemma_find_absent;
use crate::ordered::lemma_find_unique;
use crate::ordered::set_clone;
use crate::ordered::set_index_of;
use crate::ordered::set_insert;
use crate::ordered::set_key;
use crate::ordered::set_new;
use crate::patching::is_render_of;
use crate::patching::is_served;
use crate::patching::is_unrendered;
use crate::patching::list_is_patch_of;
use crate::patching::list_patch_effects;
use crate::patching::lookup_node;
use crate::patching::no_children;
use crate::patching::remaining;
use crate::patching::render_effects;
use crate::reconcile::has_dirty_order;
use crate::reconcile::held_by;
use crate::reconcile::lemma_remaining;
use crate::reconcile::lemma_same_children_prefix;
use crate::reconcile::lemma_trees_push;
use crate::reconcile::lemma_trees_update;
use crate::reconcile::patch_children;
use crate::reconcile::remove_nodes;
use crate::reconcile::render_children;
use crate::reconcile::reversed;
use crate::reconcile::reversed_items;
use crate::reconcile::serve_children;
use crate::reconcile::unzip;
use crate::reconcile::update_positions;
use crate::target::DEFAULT_DEPTH;
use crate::target::Handle;
use crate::target::Target;
use crate::traits::RenderToString;
use crate::traits::ServerRender;
use crate::vnode::VNode;
use indexmap::IndexSet;
use std::borrow::Cow;
use vstd::pervasive::VecAdditionalExecFns;
use std::cell::Cell;
use std::rc::Rc;
use vstd::prelude::*;

verus! {

/// The models of a sequence of nodes.
pub open spec fn trees(nodes: Seq<VNode>) -> Seq<Tree>
    decreases nodes,
{
    if nodes.len() == 0 {
        Seq::empty()
    } else {
        trees(nodes.drop_last()).push(nodes.last()@)
    }
}

/// What a pass over the nodes `before` that left `out` did behind the
/// record: what it did to each of them.
pub open spec fn all_passed(out: Seq<VNode>, before: Seq<VNode>, requests: Rc<Cell<bool>>, depth: nat) -> bool
    decreases out, 0nat,
{
    if out.len() == 0 || before.len() != out.len() {
        before.len() == out.len()
    } else {
        all_passed(out.drop_last(), before.drop_last(), requests, depth) && crate::vnode::is_passed(
            out.last(),
            before.last(),
            requests,
            depth,
        )
    }
}

/// What the patch of the nodes `new` under `keys` against the children of
/// a list that shows as `old` did behind the record: what it did to each,
/// patched against the old child of its key.
pub open spec fn all_patched(
    out: Seq<VNode>,
    new: Seq<VNode>,
    keys: Seq<Seq<char>>,
    old: ListModel,
    requests: Rc<Cell<bool>>,
    depth: nat,
) -> bool
    decreases out, 2nat,
{
    if out.len() == 0 || new.len() != out.len() || keys.len() != out.len() {
        new.len() == out.len() && keys.len() == out.len()
    } else {
        all_patched(out.drop_last(), new.drop_last(), keys.drop_last(), old, requests, depth)
            && crate::vnode::is_patched_against(
            out.last(),
            new.last(),
            crate::patching::lookup_node(old, keys.last()),
            requests,
            depth,
        )
    }
}

/// Nodes that were each patched against the old child of their key were
/// all patched against the children of the old list.
pub proof fn lemma_all_patched(
    out: Seq<VNode>,
    new: Seq<VNode>,
    keys: Seq<Seq<char>>,
    old: ListModel,
    requests: Rc<Cell<bool>>,
    depth: nat,
)
    requires
        new.len() == out.len(),
        keys.len() == out.len(),
        forall|j: int|
            0 <= j < out.len() ==> crate::vnode::is_patched_against(
                #[trigger] out[j],
                new[j],
                crate::patching::lookup_node(old, keys[j]),
                requests,
                depth,
            ),
    ensures
        all_patched(out, new, keys, old, requests, depth),
    decreases out.len(),
{
    if out.len() > 0 {
        let front = out.drop_last();
        assert forall|j: int| 0 <= j < front.len() implies crate::vnode::is_patched_against(
            #[trigger] front[j],
            new.drop_last()[j],
            crate::patching::lookup_node(old, keys.drop_last()[j]),
            requests,
            depth,
        ) by {
            assert(front[j] == out[j]);
        }
        lemma_all_patched(front, new.drop_last(), keys.drop_last(), old, requests, depth);
        assert(out.last() == out[out.len() - 1]);
    }
}

/// What the teardown of the nodes did behind the record: what it did to
/// each of them.
pub open spec fn all_torn_down(nodes: Seq<VNode>) -> bool
    decreases nodes, 0nat,
{
    if nodes.len() == 0 {
        true
    } else {
        all_torn_down(nodes.drop_last()) && crate::vnode::is_torn_down(nodes.last())
    }
}

/// `trees` goes node by node.
pub proof fn lemma_trees(nodes: Seq<VNode>)
    ensures
        trees(nodes).len() == nodes.len(),
        forall|i: int| 0 <= i < nodes.len() ==> trees(nodes)[i] == (#[trigger] nodes[i])@,
    decreases nodes,
{
    if nodes.len() > 0 {
        let front = nodes.drop_last();
        lemma_trees(front);
        assert(trees(nodes) == trees(front).push(nodes.last()@));
        assert(trees(nodes).len() == nodes.len());
        assert forall|i: int| 0 <= i < nodes.len() implies trees(nodes)[i] == (#[trigger] nodes[i])@ by {
            if i < nodes.len() - 1 {
                assert(front[i] == nodes[i]);
                assert(trees(nodes)[i] == trees(front)[i]);
            } else {
                assert(nodes[i] == nodes.last());
            }
        }
    }
}

/// An ordered collection of nodes, each under a key of its own. The order is
/// the order in which the nodes are shown.
///
/// The keys stand in an ordered set and the nodes beside them, kept in step:
/// node `i` is the node under key `i`. One ordered map from keys to nodes
/// would hold nodes inside a collection that the verifier knows only from
/// outside, and it accepts no type that is defined through such a
/// collection of itself.
pub struct VList {
    keys: IndexSet<String>,
    nodes: Vec<VNode>,
}

impl View for VList {
    type V = ListModel;

    closed spec fn view(&self) -> ListModel
        decreases self,
    {
        ListModel { keys: key_order(self.keys), nodes: trees(self.nodes@) }
    }
}

impl DeepView for VList {
    type V = ListModel;

    open spec fn deep_view(&self) -> ListModel {
        self@
    }
}

impl VList {
    /// Every child has its key, and no key occurs twice.
    #[verifier::type_invariant]
    spec fn keyed(self) -> bool {
        &&& key_order(self.keys).len() == self.nodes@.len()
        &&& key_order(self.keys).no_duplicates()
    }

    /// Every child has its key, and no key occurs twice.
    pub fn keyed_once(&self)
        ensures
            self@.keys.len() == self@.nodes.len(),
            self@.keys.no_duplicates(),
    {
        proof {
            use_type_invariant(self);
            lemma_trees(self.nodes@);
        }
    }

    /// The keys of the list, each at the position of its child: what the
    /// reconciliation of a later list keeps of this one to tell whether the
    /// order has changed. No key occurs twice in it.
    pub fn key_positions(&self) -> (keys: IndexSet<String>)
        ensures
            key_order(keys) == self@.keys,
            key_order(keys).no_duplicates(),
    {
        proof {
            use_type_invariant(self);
        }
        set_clone(&self.keys)
    }

    /// Whether every component among the children that has rendered has
    /// done so in its first pass.
    pub fn is_first_pass(&self) -> (first: bool)
        ensures
            first == crate::document::is_first_pass(Tree::List(self@)),
        decreases crate::model::size(Tree::List(self@)), 0nat,
    {
        let n = self.len();
        let mut i: usize = 0;
        while i < n
            invariant
                i <= n,
                n == self@.nodes.len(),
                forall|j: int| 0 <= j < i ==> crate::document::is_first_pass(#[trigger] self@.nodes[j]),
            decreases n - i,
        {
            proof {
                crate::model::lemma_nodes_size(self@.nodes, i as int);
            }
            if !self.node(i).is_first_pass() {
                return false;
            }
            i += 1;
        }
        true
    }

    /// Every child has its key, no key occurs twice, and every child is
    /// well formed in turn.
    pub fn well_formed_throughout(&self)
        ensures
            crate::laws::is_well_formed(Tree::List(self@)),
        decreases crate::model::size(Tree::List(self@)), 0nat,
    {
        self.keyed_once();
        let n = self.len();
        let mut i: usize = 0;
        while i < n
            invariant
                i <= n,
                n == self@.nodes.len(),
                forall|j: int| 0 <= j < i ==> crate::laws::is_well_formed(#[trigger] self@.nodes[j]),
            decreases n - i,
        {
            proof {
                crate::model::lemma_nodes_size(self@.nodes, i as int);
            }
            self.node(i).well_formed_throughout();
            i += 1;
        }
    }

    /// The number of children.
    pub fn len(&self) -> (n: usize)
        ensures
            n == self@.nodes.len(),
            n == self@.keys.len(),
    {
        proof {
            use_type_invariant(self);
            lemma_trees(self.nodes@);
        }
        self.nodes.len()
    }

    /// The key of the child at position `i`.
    pub fn key(&self, i: usize) -> (key: &String)
        requires
            i < self@.keys.len(),
        ensures
            key@ == self@.keys[i as int],
    {
        match set_key(&self.keys, i) {
            Some(key) => key,
            None => vstd::pervasive::unreached(),
        }
    }

    /// The child at position `i`.
    pub fn node(&self, i: usize) -> (node: &VNode)
        requires
            i < self@.nodes.len(),
        ensures
            node@ == self@.nodes[i as int],
    {
        proof {
            lemma_trees(self.nodes@);
        }
        &self.nodes[i]
    }

    /// The position of the child under `key`, if there is one.
    pub fn position(&self, key: &str) -> (position: Option<usize>)
        ensures
            match position {
                Some(i) => crate::ordered::find(self@.keys, key@) == Some(i as int),
                None => crate::ordered::find(self@.keys, key@) is None,
            },
    {
        proof {
            use_type_invariant(self);
        }
        let position = set_index_of(&self.keys, key);
        proof {
            match position {
                Some(i) => lemma_find_unique(self@.keys, key@, i as int),
                None => lemma_find_absent(self@.keys, key@),
            }
        }
        position
    }

    /// Appends the markup of the children, one after the other, to `out`.
    pub fn write_html(&self, out: &mut String)
        ensures
            final(out)@ == old(out)@ + Tree::List(self@).html(),
        decreases crate::model::size(Tree::List(self@)), 0nat,
    {
        let n = self.len();
        let mut i: usize = 0;
        assert(old(out)@ + list_html(self@.nodes.subrange(0, 0)) =~= old(out)@);
        while i < n
            invariant
                i <= n,
                n == self@.nodes.len(),
                out@ == old(out)@ + list_html(self@.nodes.subrange(0, i as int)),
            decreases n - i,
        {
            proof {
                crate::model::lemma_nodes_size(self@.nodes, i as int);
            }
            self.node(i).write_html(out);
            proof {
                let next = self@.nodes.subrange(0, i + 1);
                assert(next.drop_last() =~= self@.nodes.subrange(0, i as int));
                assert(next.last() == self@.nodes[i as int]);
                assert(out@ =~= old(out)@ + list_html(next));
            }
            i += 1;
        }
        assert(self@.nodes.subrange(0, n as int) =~= self@.nodes);
    }

    /// Whether two lists hold the same nodes under the same keys. The order
    /// of the keys does not count.
    pub fn same_as(&self, other: &VList) -> (equal: bool)
        ensures
            equal == same(Tree::List(self@), Tree::List(other@)),
        decreases crate::model::size(Tree::List(self@)), 0nat,
    {
        let n = self.len();
        if n != other.len() {
            return false;
        }
        other.keyed_once();
        let mut i: usize = 0;
        while i < n
            invariant
                i <= n,
                n == self@.nodes.len(),
                n == self@.keys.len(),
                self@.nodes.len() == other@.nodes.len(),
                other@.keys.len() == other@.nodes.len(),
                crate::model::same_children(self@, other@, i as int),
            decreases n - i,
        {
            proof {
                crate::model::lemma_nodes_size(self@.nodes, i as int);
            }
            let equal = match other.position(self.key(i).as_str()) {
                Some(j) => self.node(i).same_as(other.node(j)),
                None => false,
            };
            if !equal {
                proof {
                    assert(!crate::model::same_children(self@, other@, i + 1));
                    if crate::model::same_children(self@, other@, n as int) {
                        lemma_same_children_prefix(self@, other@, i + 1, n as int);
                    }
                }
                return false;
            }
            i += 1;
        }
        true
    }

    /// The target's node that stands first for the list: that of its first
    /// child.
    pub fn dom_node(&self) -> (node: Option<Handle>)
        ensures
            node == Tree::List(self@).dom_node(),
        decreases crate::model::size(Tree::List(self@)), 0nat,
    {
        if self.len() > 0 {
            proof {
                crate::model::lemma_nodes_size(self@.nodes, 0);
            }
            self.node(0).dom_node()
        } else {
            None
        }
    }

    /// Moves every child to the end of `parent`, first to last.
    pub fn move_to_last(&self, target: &mut Target, parent: Handle)
        requires
            Tree::List(self@).is_attached(),
        ensures
            final(target)@ == old(target)@ + Tree::List(self@).move_to_last_effects(parent),
            final(target).depth() == old(target).depth(),
            final(target).request_flag() == old(target).request_flag(),
            crate::target::numbered(old(target)@) ==> crate::target::numbered(final(target)@),
        decreases crate::model::size(Tree::List(self@)), 0nat,
    {
        let n = self.len();
        let mut i: usize = 0;
        assert(old(target)@ + list_move_to_last_effects(self@.nodes.subrange(0, 0), parent) =~= old(target)@);
        while i < n
            invariant
                i <= n,
                n == self@.nodes.len(),
                Tree::List(self@).is_attached(),
                target@ == old(target)@ + list_move_to_last_effects(self@.nodes.subrange(0, i as int), parent),
                target.depth() == old(target).depth(),
                target.request_flag() == old(target).request_flag(),
                crate::target::numbered(old(target)@) ==> crate::target::numbered(target@),
            decreases n - i,
        {
            proof {
                crate::model::lemma_nodes_size(self@.nodes, i as int);
            }
            self.node(i).move_to_last(target, parent);
            proof {
                let next = self@.nodes.subrange(0, i + 1);
                assert(next.drop_last() =~= self@.nodes.subrange(0, i as int));
                assert(next.last() == self@.nodes[i as int]);
                assert(target@ =~= old(target)@ + list_move_to_last_effects(next, parent));
            }
            i += 1;
        }
        assert(self@.nodes.subrange(0, n as int) =~= self@.nodes);
    }

    /// Moves every child before `next` under `parent`, first to last.
    pub fn move_before(&self, target: &mut Target, parent: Handle, next: Handle)
        requires
            Tree::List(self@).is_attached(),
        ensures
            final(target)@ == old(target)@ + Tree::List(self@).move_before_effects(parent, next),
            final(target).depth() == old(target).depth(),
            final(target).request_flag() == old(target).request_flag(),
            crate::target::numbered(old(target)@) ==> crate::target::numbered(final(target)@),
        decreases crate::model::size(Tree::List(self@)), 0nat,
    {
        let n = self.len();
        let mut i: usize = 0;
        assert(old(target)@ + list_move_before_effects(self@.nodes.subrange(0, 0), parent, next) =~= old(
            target,
        )@);
        while i < n
            invariant
                i <= n,
                n == self@.nodes.len(),
                Tree::List(self@).is_attached(),
                target@ == old(target)@ + list_move_before_effects(
                    self@.nodes.subrange(0, i as int),
                    parent,
                    next,
                ),
                target.depth() == old(target).depth(),
                target.request_flag() == old(target).request_flag(),
                crate::target::numbered(old(target)@) ==> crate::target::numbered(target@),
            decreases n - i,
        {
            proof {
                crate::model::lemma_nodes_size(self@.nodes, i as int);
            }
            self.node(i).move_before(target, parent, next);
            proof {
                let upto = self@.nodes.subrange(0, i + 1);
                assert(upto.drop_last() =~= self@.nodes.subrange(0, i as int));
                assert(upto.last() == self@.nodes[i as int]);
                assert(target@ =~= old(target)@ + list_move_before_effects(upto, parent, next));
            }
            i += 1;
        }
        assert(self@.nodes.subrange(0, n as int) =~= self@.nodes);
    }

    /// Takes every child out of `parent`, first to last.
    pub fn remove(self, target: &mut Target, parent: Handle)
        requires
            Tree::List(self@).is_attached(),
        ensures
            self.is_torn_down(),
            final(target)@ == old(target)@ + Tree::List(self@).remove_effects(parent),
            final(target).depth() == old(target).depth(),
            final(target).request_flag() == old(target).request_flag(),
            crate::target::numbered(old(target)@) ==> crate::target::numbered(final(target)@),
        decreases crate::model::size(Tree::List(self@)), 0nat,
    {
        let ghost model = self@;
        proof {
            lemma_trees(self.nodes@);
        }
        let VList { nodes, .. } = self;
        remove_nodes(nodes, target, parent, Ghost(model));
    }
}

impl VList {
    /// Brings the target up to date with this list. Against a previous
    /// list the children are reconciled by key: each child is patched
    /// against the old child of its key, last to first and each before the
    /// node of the child after it; where the old order was broken the
    /// children are moved in one sweep; and the old children whose keys are
    /// gone are taken out. Without a previous list the children are built
    /// in the same way, last to first, the last of them before `next`.
    pub fn patch(self, target: &mut Target, parent: Handle, next: Option<Handle>, previous: Option<VList>) -> (out:
        VList)
        requires
            crate::model::is_unbound(Tree::List(self@)),
            previous matches Some(prior) ==> Tree::List(prior@).is_attached(),
        ensures
            list_is_patch_of(out@, self@, previous.deep_view(), old(target).depth()),
            out.is_patched(self, previous, old(target).request_flag(), old(target).depth()),
            final(target)@ == old(target)@ + list_patch_effects(out@, self@, previous.deep_view(), parent, next),
            final(target).depth() == old(target).depth(),
            final(target).request_flag() == old(target).request_flag(),
            crate::target::numbered(old(target)@) ==> crate::target::numbered(final(target)@),
            Tree::List(out@).is_attached(),
        decreases
                old(target).depth(),
                size(Tree::List(self@)) + option_size(
                    match previous {
                        Some(prior) => Some(Tree::List(prior@)),
                        None => None,
                    },
                ),
                2nat,
    {
        proof {
            use_type_invariant(&self);
            lemma_trees(self.nodes@);
        }
        let ghost new = self@;
        let VList { keys, nodes } = self;
        match previous {
            Some(old_list) => {
                proof {
                    use_type_invariant(&old_list);
                    lemma_trees(old_list.nodes@);
                }
                let ghost prior = old_list@;
                let old_children_pos = old_list.key_positions();
                let VList { keys: mut old_keys, nodes: mut old_nodes } = old_list;
                let nodes = patch_children(
                    nodes,
                    &keys,
                    &mut old_nodes,
                    &mut old_keys,
                    target,
                    parent,
                    next,
                    Ghost(new),
                    Ghost(prior),
                );
                proof {
                    lemma_trees(nodes@);
                    lemma_all_patched(
                        nodes@,
                        self.nodes@,
                        new.keys,
                        prior,
                        old(target).request_flag(),
                        old(target).depth(),
                    );
                }
                let out = VList { keys, nodes };
                let ghost patched = target@;
                if has_dirty_order(&out, &old_children_pos) {
                    update_positions(&out, target, parent, &old_children_pos);
                }
                let ghost stale = remaining(prior, new.keys, 0);
                proof {
                    lemma_remaining(prior, new.keys, 0);
                    assert forall|j: int| 0 <= j < stale.nodes.len() implies (#[trigger] stale.nodes[j]).is_attached() by {
                        assert(held_by(prior, stale.nodes[j]));
                        let k = choose|k: int| 0 <= k < prior.nodes.len() && #[trigger] prior.nodes[k] == stale.nodes[j];
                        assert(prior.nodes[k].is_attached());
                    }
                }
                let ghost left = old_nodes@;
                remove_nodes(old_nodes, target, parent, Ghost(stale));
                assert(target@ =~= old(target)@ + list_patch_effects(out@, new, Some(prior), parent, next));
                assert(trees(left) == remaining(prior, key_order(out.keys), 0).nodes && all_torn_down(left));
                out
            },
            None => {
                let mut old_keys = set_new();
                let mut old_nodes: Vec<VNode> = Vec::new();
                proof {
                    lemma_trees(old_nodes@);
                    assert(trees(old_nodes@) =~= no_children().nodes);
                }
                let nodes = patch_children(
                    nodes,
                    &keys,
                    &mut old_nodes,
                    &mut old_keys,
                    target,
                    parent,
                    next,
                    Ghost(new),
                    Ghost(no_children()),
                );
                proof {
                    lemma_trees(nodes@);
                    assert forall|j: int| 0 <= j < new.nodes.len() implies lookup_node(no_children(), new.keys[j])
                        is None by {}
                    lemma_all_patched(
                        nodes@,
                        self.nodes@,
                        new.keys,
                        no_children(),
                        old(target).request_flag(),
                        old(target).depth(),
                    );
                }
                VList { keys, nodes }
            },
        }
    }

    /// Passes over the children of the list, first to last.
    pub fn dom_render(self, target: &mut Target, parent: Handle, next: Option<Handle>) -> (out: VList)
        ensures
            is_render_of(Tree::List(out@), Tree::List(self@), old(target).depth()),
            out.is_passed(self, old(target).request_flag(), old(target).depth()),
            final(target)@ == old(target)@ + render_effects(Tree::List(out@), Tree::List(self@), parent, next),
            final(target).depth() == old(target).depth(),
            final(target).request_flag() == old(target).request_flag(),
            crate::target::numbered(old(target)@) ==> crate::target::numbered(final(target)@),
            Tree::List(self@).is_attached() ==> Tree::List(out@).is_attached(),
        decreases old(target).depth(), size(Tree::List(self@)), 2nat,
    {
        proof {
            use_type_invariant(&self);
            lemma_trees(self.nodes@);
        }
        let ghost before = self@;
        let VList { keys, nodes } = self;
        let nodes = render_children(nodes, target, parent, next, Ghost(before));
        proof {
            lemma_trees(nodes@);
        }
        VList { keys, nodes }
    }
}

impl VList {
    /// The list of the nodes under the keys, put in first to last: a key
    /// that comes again keeps its place and takes the later node.
    fn from_parts(keys: Vec<String>, nodes: Vec<VNode>) -> (list: VList)
        requires
            keys@.len() == nodes@.len(),
        ensures
            list@ == keyed(strings_view(keys@), trees(nodes@), nodes@.len() as int),
    {
        let n = nodes.len();
        let mut key_stack = reversed_items(keys);
        let mut node_stack = reversed(nodes);
        let mut set = set_new();
        let mut held: Vec<VNode> = Vec::new();
        let ghost all_keys = strings_view(keys@);
        let ghost all_nodes = trees(nodes@);
        let mut i: usize = 0;
        proof {
            lemma_trees(nodes@);
            lemma_trees(held@);
        }
        while i < n
            invariant
                i <= n,
                n == nodes@.len(),
                n == keys@.len(),
                all_keys == strings_view(keys@),
                all_nodes == trees(nodes@),
                all_nodes.len() == n,
                key_stack@.len() == n - i,
                node_stack@.len() == n - i,
                forall|j: int| 0 <= j < n - i ==> (#[trigger] key_stack@[j])@ == all_keys[n - 1 - j],
                forall|j: int| 0 <= j < n - i ==> (#[trigger] node_stack@[j])@ == all_nodes[n - 1 - j],
                key_order(set).no_duplicates(),
                key_order(set).len() == held@.len(),
                (ListModel { keys: key_order(set), nodes: trees(held@) }) == keyed(all_keys, all_nodes, i as int),
            decreases n - i,
        {
            let key = match key_stack.pop() {
                Some(key) => key,
                None => vstd::pervasive::unreached(),
            };
            let node = match node_stack.pop() {
                Some(node) => node,
                None => vstd::pervasive::unreached(),
            };
            assert(key@ == all_keys[i as int]);
            assert(node@ == all_nodes[i as int]);
            let ghost before = key_order(set);
            let ghost before_nodes = held@;
            match set_index_of(&set, key.as_str()) {
                Some(position) => {
                    proof {
                        lemma_find_unique(before, key@, position as int);
                        lemma_trees_update(before_nodes, position as int, node);
                    }
                    held.set(position, node);
                },
                None => {
                    proof {
                        lemma_find_absent(before, key@);
                        lemma_trees_push(before_nodes, node);
                    }
                    let _ = set_insert(&mut set, key);
                    held.push(node);
                    proof {
                        let after = key_order(set);
                        assert forall|a: int, b: int|
                            0 <= a < after.len() && 0 <= b < after.len() && a != b implies after[a] != after[b] by {
                            if a < before.len() {
                                assert(after[a] == before[a]);
                            }
                            if b < before.len() {
                                assert(after[b] == before[b]);
                            }
                        }
                    }
                },
            }
            i += 1;
        }
        VList { keys: set, nodes: held }
    }

    /// The list of the keyed children, put in first to last.
    pub fn new(children: Vec<(String, VNode)>) -> (list: VList)
        ensures
            list@ == keyed(
                Seq::new(children@.len(), |i: int| children@[i].0@),
                Seq::new(children@.len(), |i: int| children@[i].1@),
                children@.len() as int,
            ),
    {
        let (keys, nodes) = unzip(children);
        proof {
            lemma_trees(nodes@);
            assert(strings_view(keys@) =~= Seq::new(children@.len(), |i: int| children@[i].0@));
            assert forall|j: int| 0 <= j < nodes@.len() implies trees(nodes@)[j] == children@[j].1@ by {
                assert(trees(nodes@)[j] == nodes@[j]@);
            }
            assert(trees(nodes@) =~= Seq::new(children@.len(), |i: int| children@[i].1@));
        }
        VList::from_parts(keys, nodes)
    }

    /// What the patch of `new` against `previous` that left this list did
    /// behind the record: each child was patched against the old child of
    /// its key, and the old children whose keys are gone were torn down.
    pub closed spec fn is_patched(
        self,
        new: VList,
        previous: Option<VList>,
        requests: Rc<Cell<bool>>,
        depth: nat,
    ) -> bool
        decreases self, 0nat,
    {
        &&& all_patched(
            self.nodes@,
            new.nodes@,
            key_order(self.keys),
            match previous {
                Some(old) => old@,
                None => no_children(),
            },
            requests,
            depth,
        )
        &&& match previous {
            Some(old) => exists|stale: Seq<VNode>|
                #[trigger] trees(stale) == remaining(old@, key_order(self.keys), 0).nodes && all_torn_down(stale),
            None => true,
        }
    }

    /// What the teardown of the list did behind the record: what it did to
    /// each child.
    pub closed spec fn is_torn_down(self) -> bool
        decreases self, 0nat,
    {
        all_torn_down(self.nodes@)
    }

    /// What a pass over the list `before` that left this one did behind the
    /// record: what it did to each child.
    pub closed spec fn is_passed(self, before: VList, requests: Rc<Cell<bool>>, depth: nat) -> bool
        decreases self, 0nat,
    {
        all_passed(self.nodes@, before.nodes@, requests, depth)
    }

    /// Whether every event binding among the children can still be
    /// attached.
    pub fn is_unbound_throughout(&self) -> (unbound: bool)
        ensures
            unbound == crate::model::is_unbound(Tree::List(self@)),
        decreases size(Tree::List(self@)), 0nat,
    {
        let n = self.len();
        let mut i: usize = 0;
        while i < n
            invariant
                i <= n,
                n == self@.nodes.len(),
                forall|j: int| 0 <= j < i ==> crate::model::is_unbound(#[trigger] self@.nodes[j]),
            decreases n - i,
        {
            proof {
                crate::model::lemma_nodes_size(self@.nodes, i as int);
            }
            if !self.node(i).is_unbound_throughout() {
                return false;
            }
            i += 1;
        }
        true
    }

    /// The list as it was described: none of the event bindings among its
    /// children was ever attached.
    pub fn renewed(self) -> (out: VList)
        ensures
            Tree::List(out@) == crate::model::unbound(Tree::List(self@)),
        decreases size(Tree::List(self@)), 2nat,
    {
        proof {
            use_type_invariant(&self);
            lemma_trees(self.nodes@);
            crate::model::lemma_all_unbound(self@.nodes);
        }
        let ghost before = self@;
        let VList { keys, nodes } = self;
        let nodes = crate::reconcile::renew_children(nodes, Ghost(before));
        proof {
            lemma_trees(nodes@);
        }
        VList { keys, nodes }
    }

    /// Whether no component among the children has an instance or has
    /// rendered, with a target or without.
    pub fn is_unrendered_throughout(&self) -> (unrendered: bool)
        ensures
            unrendered == is_unrendered(Tree::List(self@)),
        decreases size(Tree::List(self@)), 0nat,
    {
        let n = self.len();
        let mut i: usize = 0;
        while i < n
            invariant
                i <= n,
                n == self@.nodes.len(),
                forall|j: int| 0 <= j < i ==> is_unrendered(#[trigger] self@.nodes[j]),
            decreases n - i,
        {
            proof {
                crate::model::lemma_nodes_size(self@.nodes, i as int);
            }
            if !self.node(i).is_unrendered_throughout() {
                return false;
            }
            i += 1;
        }
        true
    }

    /// Renders the components among the children without a target. None of
    /// them may have rendered before.
    pub fn server_rendered(self, depth: usize) -> (out: VList)
        requires
            is_unrendered(Tree::List(self@)),
        ensures
            is_served(Tree::List(out@), Tree::List(self@), depth as nat),
        decreases depth, size(Tree::List(self@)), 2nat,
    {
        proof {
            use_type_invariant(&self);
            lemma_trees(self.nodes@);
        }
        let ghost before = self@;
        let VList { keys, nodes } = self;
        let nodes = serve_children(nodes, depth, Ghost(before));
        proof {
            lemma_trees(nodes@);
        }
        VList { keys, nodes }
    }
}

impl<'a> From<Vec<(&'a str, VNode)>> for VList {
    /// The list of the keyed children, put in first to last.
    fn from(item: Vec<(&'a str, VNode)>) -> (list: VList)
        ensures
            list@ == keyed(
                Seq::new(item@.len(), |i: int| item@[i].0@),
                Seq::new(item@.len(), |i: int| item@[i].1@),
                item@.len() as int,
            ),
    {
        let (names, nodes) = unzip(item);
        let n = names.len();
        let mut keys: Vec<String> = Vec::new();
        let mut i: usize = 0;
        while i < n
            invariant
                i <= n,
                n == names@.len(),
                keys@.len() == i,
                forall|j: int| 0 <= j < i ==> (#[trigger] keys@[j])@ == names@[j]@,
            decreases n - i,
        {
            keys.push(names[i].to_owned());
            i += 1;
        }
        proof {
            lemma_trees(nodes@);
            assert(strings_view(keys@) =~= Seq::new(item@.len(), |i: int| item@[i].0@));
            assert forall|j: int| 0 <= j < nodes@.len() implies trees(nodes@)[j] == item@[j].1@ by {
                assert(trees(nodes@)[j] == nodes@[j]@);
            }
            assert(trees(nodes@) =~= Seq::new(item@.len(), |i: int| item@[i].1@));
        }
        VList::from_parts(keys, nodes)
    }
}

impl<'a> vstd::std_specs::convert::FromSpecImpl<Vec<(&'a str, VNode)>> for VList {
    open spec fn obeys_from_spec() -> bool {
        false
    }

    open spec fn from_spec(v: Vec<(&'a str, VNode)>) -> VList {
        arbitrary()
    }
}

impl From<Vec<(String, VNode)>> for VList {
    /// The list of the keyed children, put in first to last.
    fn from(item: Vec<(String, VNode)>) -> (list: VList)
        ensures
            list@ == keyed(
                Seq::new(item@.len(), |i: int| item@[i].0@),
                Seq::new(item@.len(), |i: int| item@[i].1@),
                item@.len() as int,
            ),
    {
        VList::new(item)
    }
}

impl vstd::std_specs::convert::FromSpecImpl<Vec<(String, VNode)>> for VList {
    open spec fn obeys_from_spec() -> bool {
        false
    }

    open spec fn from_spec(v: Vec<(String, VNode)>) -> VList {
        arbitrary()
    }
}

impl From<Vec<(Cow<'static, str>, VNode)>> for VList {
    /// The list of the keyed children, put in first to last.
    fn from(item: Vec<(Cow<'static, str>, VNode)>) -> (list: VList)
        ensures
            list@ == keyed(
                Seq::new(item@.len(), |i: int| item@[i].0@),
                Seq::new(item@.len(), |i: int| item@[i].1@),
                item@.len() as int,
            ),
    {
        let (names, nodes) = unzip(item);
        let n = names.len();
        let mut stack = reversed_items(names);
        let mut keys: Vec<String> = Vec::new();
        let mut i: usize = 0;
        while i < n
            invariant
                i <= n,
                n == names@.len(),
                stack@.len() == n - i,
                forall|j: int| 0 <= j < n - i ==> (#[trigger] stack@[j]) == names@[n - 1 - j],
                keys@.len() == i,
                forall|j: int| 0 <= j < i ==> (#[trigger] keys@[j])@ == names@[j]@,
            decreases n - i,
        {
            match stack.pop() {
                Some(Cow::Borrowed(name)) => keys.push(name.to_owned()),
                Some(Cow::Owned(name)) => keys.push(name),
                None => {},
            }
            i += 1;
        }
        proof {
            lemma_trees(nodes@);
            assert(strings_view(keys@) =~= Seq::new(item@.len(), |i: int| item@[i].0@));
            assert forall|j: int| 0 <= j < nodes@.len() implies trees(nodes@)[j] == item@[j].1@ by {
                assert(trees(nodes@)[j] == nodes@[j]@);
            }
            assert(trees(nodes@) =~= Seq::new(item@.len(), |i: int| item@[i].1@));
        }
        VList::from_parts(keys, nodes)
    }
}

impl vstd::std_specs::convert::FromSpecImpl<Vec<(Cow<'static, str>, VNode)>> for VList {
    open spec fn obeys_from_spec() -> bool {
        false
    }

    open spec fn from_spec(v: Vec<(Cow<'static, str>, VNode)>) -> VList {
        arbitrary()
    }
}

impl From<Vec<VNode>> for VList {
    /// The list of the children, each under its position as key.
    fn from(item: Vec<VNode>) -> (list: VList)
        ensures
            list@ == keyed(index_keys(item@.len()), trees(item@), item@.len() as int),
    {
        let n = item.len();
        let mut keys: Vec<String> = Vec::new();
        let mut i: usize = 0;
        while i < n
            invariant
                i <= n,
                n == item@.len(),
                keys@.len() == i,
                forall|j: int| 0 <= j < i ==> (#[trigger] keys@[j])@ == decimal(j as nat),
            decreases n - i,
        {
            keys.push(index_key(i));
            i += 1;
        }
        proof {
            assert(strings_view(keys@) =~= index_keys(item@.len()));
        }
        VList::from_parts(keys, item)
    }
}

impl vstd::std_specs::convert::FromSpecImpl<Vec<VNode>> for VList {
    open spec fn obeys_from_spec() -> bool {
        false
    }

    open spec fn from_spec(v: Vec<VNode>) -> VList {
        arbitrary()
    }
}

impl VList {
    /// The markup of the children, one after the other.
    pub fn to_string(&self) -> (html: String)
        ensures
            html@ == Tree::List(self@).html(),
    {
        let mut html = String::new();
        self.write_html(&mut html);
        assert(html@ =~= Tree::List(self@).html());
        html
    }
}

impl ServerRender for VList {
    open spec fn servable(&self) -> bool {
        is_unrendered(Tree::List(self@))
    }

    open spec fn served(out: Self, before: Self) -> bool {
        is_served(Tree::List(out@), Tree::List(before@), DEFAULT_DEPTH as nat)
    }

    /// Renders the components among the children without a target.
    fn server_render(&mut self) {
        let mut list = VList::from_parts(Vec::new(), Vec::new());
        core::mem::swap(self, &mut list);
        let mut list = list.server_rendered(DEFAULT_DEPTH);
        core::mem::swap(self, &mut list);
    }
}

impl RenderToString for VList {
    open spec fn markup(&self) -> Seq<char> {
        Tree::List(self@).html()
    }

    fn render_to_string(&mut self) -> (html: String) {
        self.server_render();
        self.to_string()
    }
}

impl PartialEq for VList {
    fn eq(&self, other: &VList) -> (equal: bool) {
        self.same_as(other)
    }
}

impl vstd::std_specs::cmp::PartialEqSpecImpl for VList {
    open spec fn obeys_eq_spec() -> bool {
        true
    }

    open spec fn eq_spec(&self, other: &VList) -> bool {
        same(Tree::List(self@), Tree::List(other@))
    }
}

impl Eq for VList {

}

} // verus!
