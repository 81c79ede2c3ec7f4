//! Bookkeeping per path into the value trees: the tree of path nodes that the
//! genetic operators walk, the per-node rescaling of their parameters, and the
//! keys handed out to new anon map entries.
use vstd::prelude::*;
use crate::number_text::{decimal, usize_to_decimal};
use crate::seq_util::{find_key, key_pos, lemma_key_pos, string_keys};
use crate::value;

verus! {

/// Hands out keys for new anon map entries: each key is above every key
/// seen or handed out before.
#[derive(Debug)]
pub struct KeyManager {
    next_key: usize,
}

impl KeyManager {
    /// The key that the next call of `next_key` returns.
    pub closed spec fn next(&self) -> usize {
        self.next_key
    }

    /// A key manager that starts at key 0.
    pub fn new() -> (r: KeyManager)
        ensures
            r.next() == 0,
    {
        KeyManager { next_key: 0 }
    }

    /// Returns a fresh key and moves past it.
    pub fn next_key(&mut self) -> (r: usize)
        requires
            old(self).next() < usize::MAX,
        ensures
            r == old(self).next(),
            final(self).next() == old(self).next() + 1,
    {
        let result = self.next_key;
        self.next_key = self.next_key + 1;
        result
    }

    /// Records that `key` is in use, so that no later key equals it.
    pub fn on_key_seen(&mut self, key: usize)
        requires
            key < usize::MAX,
        ensures
            final(self).next() == if old(self).next() > key { old(self).next() } else { (key + 1) as usize },
    {
        if self.next_key <= key {
            self.next_key = key + 1;
        }
    }

    /// Whether another key can be handed out.
    pub fn has_next(&self) -> (r: bool)
        ensures
            r == (self.next() < usize::MAX),
    {
        self.next_key < usize::MAX
    }
}

impl Default for KeyManager {
    /// A key manager that starts at key 0.
    fn default() -> (r: KeyManager)
        ensures
            r.next() == 0,
    {
        KeyManager::new()
    }
}

/// Successive calls of `next_key` on a fresh key manager hand out 0, 1, 2, ...
/// in turn, so no key comes twice. `managers[i]` is the manager before the
/// i-th call and `managers[i + 1]` the one after it, which returned `keys[i]`.
pub proof fn law_successive_keys(managers: Seq<KeyManager>, keys: Seq<usize>)
    requires
        managers.len() == keys.len() + 1,
        managers[0].next() == 0,
        forall|i: int|
            0 <= i < keys.len() ==> keys[i] == managers[i].next() && managers[i + 1].next()
                == managers[i].next() + 1,
    ensures
        forall|i: int| 0 <= i < keys.len() ==> keys[i] == i,
        forall|i: int, j: int| 0 <= i < j < keys.len() ==> keys[i] != keys[j],
        managers.last().next() == keys.len(),
    decreases keys.len(),
{
    if keys.len() > 0 {
        let n = keys.len() - 1;
        law_successive_keys(managers.take(n + 1), keys.take(n));
        assert(managers.take(n + 1).last() == managers[n]);
        assert forall|i: int| 0 <= i < keys.len() implies keys[i] == i by {
            if i < n {
                assert(keys.take(n)[i] == keys[i]);
            }
        }
        assert(keys[n] == managers[n].next());
        assert(managers.last() == managers[n + 1]);
    } else {
        assert(managers.last() == managers[0]);
    }
}

/// A node of the path tree: its children by path element, the rescaling of
/// the operator parameters at this node, and the key manager of the anon map
/// that sits at this path, if any.
#[verifier::reject_recursive_types(R)]
pub struct PathNodeContext<R> {
    child_nodes: Vec<(String, PathNodeContext<R>)>,
    pub rescaling_ctx: R,
    key_mgr: KeyManager,
}

/// The root of the path tree.
#[verifier::reject_recursive_types(R)]
pub struct PathContext<R>(pub PathNodeContext<R>);

impl<R> PathNodeContext<R> {
    /// The children, in the order in which they were created.
    pub closed spec fn children(&self) -> Seq<(String, PathNodeContext<R>)> {
        self.child_nodes@
    }

    /// The path elements of the children.
    pub open spec fn child_keys(&self) -> Seq<Seq<char>> {
        string_keys(self.children())
    }

    /// Whether there is a child under `key`.
    pub open spec fn has_child(&self, key: Seq<char>) -> bool {
        self.child_keys().contains(key)
    }

    /// The child under `key`.
    pub open spec fn child(&self, key: Seq<char>) -> PathNodeContext<R> {
        self.children()[key_pos(self.child_keys(), key)].1
    }

    /// The rescaling at this node.
    pub closed spec fn rescaling(&self) -> R {
        self.rescaling_ctx
    }

    /// The next key of this node's key manager.
    pub closed spec fn next_anon_key(&self) -> usize {
        self.key_mgr.next()
    }

    /// A node with no children, the given rescaling and keys starting at 0.
    pub fn new(rescaling_ctx: R) -> (r: PathNodeContext<R>)
        ensures
            r.children().len() == 0,
            r.rescaling() == rescaling_ctx,
            r.next_anon_key() == 0,
    {
        PathNodeContext { child_nodes: Vec::new(), rescaling_ctx, key_mgr: KeyManager::new() }
    }

    /// The child under `key`.
    pub fn get_child(&self, key: &str) -> (r: &PathNodeContext<R>)
        requires
            self.has_child(key@),
        ensures
            *r == self.child(key@),
    {
        proof {
            lemma_key_pos(self.child_keys(), key@);
        }
        let i = find_key(&self.child_nodes, key).unwrap();
        &self.child_nodes[i].1
    }

    /// The rescaling at this node.
    pub fn current_rescaling(&self) -> (r: &R)
        ensures
            *r == self.rescaling(),
    {
        &self.rescaling_ctx
    }

    /// The child under `key`, for changes.
    pub fn get_child_mut(&mut self, key: &str) -> (r: &mut PathNodeContext<R>)
        requires
            old(self).has_child(key@),
        ensures
            *r == old(self).child(key@),
            final(self).children() == old(self).children().update(
                key_pos(old(self).child_keys(), key@),
                (old(self).children()[key_pos(old(self).child_keys(), key@)].0, *final(r)),
            ),
            final(self).rescaling() == old(self).rescaling(),
            final(self).next_anon_key() == old(self).next_anon_key(),
    {
        proof {
            lemma_key_pos(self.child_keys(), key@);
        }
        let i = find_key(&self.child_nodes, key).unwrap();
        &mut self.child_nodes[i].1
    }

    /// A fresh key for a new entry of the anon map at this node.
    pub fn next_key(&mut self) -> (r: usize)
        requires
            old(self).next_anon_key() < usize::MAX,
        ensures
            r == old(self).next_anon_key(),
            final(self).next_anon_key() == old(self).next_anon_key() + 1,
            final(self).children() == old(self).children(),
            final(self).rescaling() == old(self).rescaling(),
    {
        self.key_mgr.next_key()
    }

    /// Whether this node can hand out another key.
    pub fn has_next_key(&self) -> (r: bool)
        ensures
            r == (self.next_anon_key() < usize::MAX),
    {
        self.key_mgr.has_next()
    }
}

/// The path element under which an optional's content sits.
pub open spec fn optional_key() -> Seq<char> {
    "optional"@
}

/// Whether the path tree below `ctx` has a node for every path into the value
/// `v`, and the key manager at each anon map's node is past all of its keys.
pub open spec fn covers<R>(ctx: PathNodeContext<R>, v: value::NodeV) -> bool
    decreases v,
{
    match v {
        value::NodeV::Sub(es) => forall|i: int| 0 <= i < es.len() ==> {
            &&& ctx.has_child(#[trigger] es[i].0)
            &&& covers(ctx.child(es[i].0), es[i].1)
        },
        value::NodeV::AnonMap(es) => forall|i: int| 0 <= i < es.len() ==> {
            &&& ctx.has_child(decimal((#[trigger] es[i]).0 as nat))
            &&& covers(ctx.child(decimal(es[i].0 as nat)), es[i].1)
            &&& es[i].0 < ctx.next_anon_key()
        },
        value::NodeV::Variant(name, child) => ctx.has_child(name) && covers(ctx.child(name), *child),
        value::NodeV::Optional(o) => match o {
            Some(child) => ctx.has_child(optional_key()) && covers(ctx.child(optional_key()), *child),
            None => true,
        },
        _ => true,
    }
}

/// Whether `b` covers every value that `a` covers.
pub open spec fn covers_more<R>(a: PathNodeContext<R>, b: PathNodeContext<R>) -> bool {
    forall|w: value::NodeV| covers(a, w) ==> #[trigger] covers(b, w)
}

/// Whether every child of `a` is also a child of `b`, where it covers more.
pub open spec fn children_cover_more<R>(a: PathNodeContext<R>, b: PathNodeContext<R>) -> bool {
    forall|k: Seq<char>| #[trigger] a.has_child(k) ==> b.has_child(k) && covers_more(a.child(k), b.child(k))
}

/// Whether the children of `ctx` cover the first `n` entries of a sub value.
pub open spec fn covers_sub_entries<R>(ctx: PathNodeContext<R>, es: Seq<(Seq<char>, value::NodeV)>, n: int) -> bool {
    forall|j: int| 0 <= j < n ==> ctx.has_child(#[trigger] es[j].0) && covers(ctx.child(es[j].0), es[j].1)
}

/// Whether the children of `ctx` and its key manager cover the first `n`
/// entries of an anon map value.
pub open spec fn covers_anon_entries<R>(ctx: PathNodeContext<R>, es: Seq<(usize, value::NodeV)>, n: int) -> bool {
    forall|j: int| 0 <= j < n ==> {
        &&& ctx.has_child(decimal((#[trigger] es[j]).0 as nat))
        &&& covers(ctx.child(decimal(es[j].0 as nat)), es[j].1)
        &&& es[j].0 < ctx.next_anon_key()
    }
}

/// Appending a key leaves the position of a key already present unchanged.
proof fn lemma_key_pos_push(keys: Seq<Seq<char>>, x: Seq<char>, k: Seq<char>)
    requires
        keys.contains(k),
    ensures
        key_pos(keys.push(x), k) == key_pos(keys, k),
{
    lemma_key_pos(keys, k);
    assert(keys.push(x).drop_last() =~= keys);
}

/// Children under the same keys that each cover more, and a key manager
/// moved up, cover more.
proof fn lemma_children_cover_more<R>(a: PathNodeContext<R>, b: PathNodeContext<R>)
    requires
        b.children().len() == a.children().len(),
        forall|j: int| 0 <= j < a.children().len() ==> (#[trigger] b.children()[j]).0 == a.children()[j].0
            && covers_more(a.children()[j].1, b.children()[j].1),
        a.next_anon_key() <= b.next_anon_key(),
    ensures
        covers_more(a, b),
        children_cover_more(a, b),
{
    assert forall|j: int| 0 <= j < a.children().len() implies b.child_keys()[j] == a.child_keys()[j] by {
        assert(b.children()[j].0 == a.children()[j].0);
    }
    assert(b.child_keys() =~= a.child_keys());
    assert forall|k: Seq<char>| #[trigger] a.has_child(k) implies b.has_child(k) && covers_more(a.child(k), b.child(k)) by {
        lemma_key_pos(a.child_keys(), k);
        let j = key_pos(a.child_keys(), k);
        assert(b.child_keys()[j] == k);
        assert(b.children()[j].0 == a.children()[j].0);
    }
    assert forall|w: value::NodeV| covers(a, w) implies #[trigger] covers(b, w) by {
        match w {
            value::NodeV::Sub(es) => {
                assert forall|n: int| 0 <= n < es.len() implies b.has_child(#[trigger] es[n].0) && covers(b.child(es[n].0), es[n].1) by {
                    assert(a.has_child(es[n].0));
                    assert(covers(a.child(es[n].0), es[n].1));
                    assert(covers_more(a.child(es[n].0), b.child(es[n].0)));
                }
                assert(covers(b, w));
            },
            value::NodeV::AnonMap(es) => {
                assert forall|n: int| 0 <= n < es.len() implies b.has_child(decimal((#[trigger] es[n]).0 as nat))
                    && covers(b.child(decimal(es[n].0 as nat)), es[n].1) && es[n].0 < b.next_anon_key() by {
                    assert(a.has_child(decimal(es[n].0 as nat)));
                }
                assert(covers(b, w));
            },
            value::NodeV::Variant(name, child) => {
                assert(a.has_child(name));
                assert(covers(a.child(name), *child));
                assert(covers_more(a.child(name), b.child(name)));
                assert(covers(b.child(name), *child));
            },
            value::NodeV::Optional(o) => {
                if let Some(child) = o {
                    assert(a.has_child(optional_key()));
                    assert(covers(a.child(optional_key()), *child));
                    assert(covers_more(a.child(optional_key()), b.child(optional_key())));
                    assert(covers(b.child(optional_key()), *child));
                }
            },
            _ => {},
        }
    }
}

/// Appending a child covers more, as does moving the key manager up.
proof fn lemma_push_child<R>(a: PathNodeContext<R>, b: PathNodeContext<R>)
    requires
        b.children().drop_last() == a.children(),
        b.children().len() == a.children().len() + 1,
        a.next_anon_key() <= b.next_anon_key(),
    ensures
        covers_more(a, b),
        children_cover_more(a, b),
{
    let x = b.children().last().0@;
    assert(b.child_keys() =~= a.child_keys().push(x));
    assert forall|k: Seq<char>| #[trigger] a.has_child(k) implies b.has_child(k) && b.child(k) == a.child(k) by {
            lemma_key_pos_push(a.child_keys(), x, k);
            lemma_key_pos(a.child_keys(), k);
            let j = key_pos(a.child_keys(), k);
            assert(0 <= j < a.children().len());
            assert(key_pos(b.child_keys(), k) == j);
            assert(b.children().drop_last()[j] == b.children()[j]);
            assert(b.children()[j] == a.children()[j]);
            assert(b.child_keys().contains(k)) by {
                assert(b.child_keys()[j] == k);
            }
    }
    assert forall|k: Seq<char>| #[trigger] a.has_child(k) implies b.has_child(k) && covers_more(a.child(k), b.child(k)) by {
        lemma_covers_more_refl(a.child(k));
    }
    assert forall|w: value::NodeV| covers(a, w) implies #[trigger] covers(b, w) by {
        match w {
            value::NodeV::Sub(es) => {
                assert forall|n: int| 0 <= n < es.len() implies b.has_child(#[trigger] es[n].0) && covers(b.child(es[n].0), es[n].1) by {
                    assert(a.has_child(es[n].0));
                }
            },
            value::NodeV::AnonMap(es) => {
                assert forall|n: int| 0 <= n < es.len() implies b.has_child(decimal((#[trigger] es[n]).0 as nat))
                    && covers(b.child(decimal(es[n].0 as nat)), es[n].1) && es[n].0 < b.next_anon_key() by {
                    assert(a.has_child(decimal(es[n].0 as nat)));
                }
            },
            value::NodeV::Variant(name, child) => {
                assert(a.has_child(name));
            },
            value::NodeV::Optional(o) => {
                if let Some(child) = o {
                    assert(a.has_child(optional_key()));
                    assert(covers(a.child(optional_key()), *child));
                    assert(covers_more(a.child(optional_key()), b.child(optional_key())));
                    assert(covers(b.child(optional_key()), *child));
                }
            },
            _ => {},
        }
    }
}

/// Whether every anon map key in a value can be recorded by a key manager.
pub open spec fn keys_below_max(v: value::NodeV) -> bool
    decreases v,
{
    match v {
        value::NodeV::Sub(es) => forall|i: int| 0 <= i < es.len() ==> keys_below_max((#[trigger] es[i]).1),
        value::NodeV::AnonMap(es) => forall|i: int| 0 <= i < es.len() ==> (#[trigger] es[i]).0 < usize::MAX && keys_below_max(es[i].1),
        value::NodeV::Variant(_, child) => keys_below_max(*child),
        value::NodeV::Optional(o) => match o {
            Some(child) => keys_below_max(*child),
            None => true,
        },
        _ => true,
    }
}

/// The entries of a sub value whose anon map keys can be recorded have such
/// keys too.
proof fn lemma_keys_below_max_sub(v: value::NodeV, i: int)
    requires
        keys_below_max(v),
        v is Sub,
        0 <= i < v->Sub_0.len(),
    ensures
        keys_below_max(v->Sub_0[i].1),
{
}

/// The same for the entries of an anon map value, whose keys are recordable.
proof fn lemma_keys_below_max_anon(v: value::NodeV, i: int)
    requires
        keys_below_max(v),
        v is AnonMap,
        0 <= i < v->AnonMap_0.len(),
    ensures
        v->AnonMap_0[i].0 < usize::MAX,
        keys_below_max(v->AnonMap_0[i].1),
{
}

impl<R: Default> PathNodeContext<R> {
    /// The child under `key`, created (with no children, the default
    /// rescaling and keys from 0) where there is none yet.
    pub fn get_or_create_child_mut(&mut self, key: &str) -> (r: &mut PathNodeContext<R>)
        ensures
            final(self).rescaling() == old(self).rescaling(),
            final(self).next_anon_key() == old(self).next_anon_key(),
            old(self).has_child(key@) ==> {
                let i = key_pos(old(self).child_keys(), key@);
                &&& *r == old(self).children()[i].1
                &&& final(self).children() == old(self).children().update(i, (old(self).children()[i].0, *final(r)))
            },
            !old(self).has_child(key@) ==> {
                &&& r.children().len() == 0
                &&& r.next_anon_key() == 0
                &&& final(self).children().len() == old(self).children().len() + 1
                &&& final(self).children().drop_last() == old(self).children()
                &&& final(self).children().last().0@ == key@
                &&& final(self).children().last().1 == *final(r)
            },
    {
        proof {
            lemma_key_pos(self.child_keys(), key@);
        }
        let pos = find_key(&self.child_nodes, key);
        let i: usize = match pos {
            Some(i) => i,
            None => {
                let fresh = PathNodeContext::new(R::default());
                self.child_nodes.push((key.to_string(), fresh));
                self.child_nodes.len() - 1
            },
        };
        &mut self.child_nodes[i].1
    }
}

/// Whether `b` is `a` with nodes added: every node of `a` stands in `b` at
/// the same place, under the same path element, with the same rescaling and
/// a key manager as far on or further; new children come after the old ones.
pub closed spec fn grows<R>(a: PathNodeContext<R>, b: PathNodeContext<R>) -> bool
    decreases a,
{
    &&& b.rescaling_ctx == a.rescaling_ctx
    &&& b.key_mgr.next() >= a.key_mgr.next()
    &&& b.child_nodes@.len() >= a.child_nodes@.len()
    &&& forall|j: int| 0 <= j < a.child_nodes@.len() ==> {
        &&& (#[trigger] b.child_nodes@[j]).0 == a.child_nodes@[j].0
        &&& grows(a.child_nodes@[j].1, b.child_nodes@[j].1)
    }
}

/// Every node tree grows into itself.
proof fn lemma_grows_refl<R>(a: PathNodeContext<R>)
    ensures
        grows(a, a),
    decreases a,
{
    assert forall|j: int| 0 <= j < a.child_nodes@.len() implies grows(a.child_nodes@[j].1, (#[trigger] a.child_nodes@[j]).1) by {
        assert(decreases_to!(a => a.child_nodes));
        assert(decreases_to!(a.child_nodes => a.child_nodes@));
        assert(decreases_to!(a.child_nodes@ => a.child_nodes@[j]));
        lemma_grows_refl(a.child_nodes@[j].1);
    }
}

/// Growing twice is growing.
proof fn lemma_grows_trans<R>(a: PathNodeContext<R>, b: PathNodeContext<R>, c: PathNodeContext<R>)
    requires
        grows(a, b),
        grows(b, c),
    ensures
        grows(a, c),
    decreases a,
{
    assert forall|j: int| 0 <= j < a.child_nodes@.len() implies
        (#[trigger] c.child_nodes@[j]).0 == a.child_nodes@[j].0 && grows(a.child_nodes@[j].1, c.child_nodes@[j].1) by {
        assert(decreases_to!(a => a.child_nodes));
        assert(decreases_to!(a.child_nodes => a.child_nodes@));
        assert(decreases_to!(a.child_nodes@ => a.child_nodes@[j]));
        assert(b.child_nodes@[j].0 == a.child_nodes@[j].0);
        lemma_grows_trans(a.child_nodes@[j].1, b.child_nodes@[j].1, c.child_nodes@[j].1);
    }
}

/// A node whose child under `key` grew (or was added), and nothing else
/// changed, grew.
proof fn lemma_child_grows<R>(a: PathNodeContext<R>, b: PathNodeContext<R>, key: Seq<char>, c0: PathNodeContext<R>, c: PathNodeContext<R>)
    requires
        a.rescaling() == b.rescaling(),
        a.next_anon_key() <= b.next_anon_key(),
        grows(c0, c),
        a.has_child(key) ==> {
            let i = key_pos(a.child_keys(), key);
            &&& c0 == a.children()[i].1
            &&& b.children() == a.children().update(i, (a.children()[i].0, c))
        },
        !a.has_child(key) ==> {
            &&& b.children().len() == a.children().len() + 1
            &&& b.children().drop_last() == a.children()
        },
    ensures
        grows(a, b),
{
    lemma_key_pos(a.child_keys(), key);
    let i = key_pos(a.child_keys(), key);
    assert forall|j: int| 0 <= j < a.child_nodes@.len() implies
        (#[trigger] b.child_nodes@[j]).0 == a.child_nodes@[j].0 && grows(a.child_nodes@[j].1, b.child_nodes@[j].1) by {
        if a.has_child(key) && j == i {
        } else {
            if !a.has_child(key) {
                assert(b.child_nodes@[j] == b.children().drop_last()[j]);
            }
            assert(b.child_nodes@[j] == a.child_nodes@[j]);
            lemma_grows_refl(a.child_nodes@[j].1);
        }
    }
}

/// A node whose key manager moved on, and nothing else changed, grew.
proof fn lemma_keys_grow<R>(a: PathNodeContext<R>, b: PathNodeContext<R>)
    requires
        a.rescaling() == b.rescaling(),
        a.next_anon_key() <= b.next_anon_key(),
        a.children() == b.children(),
    ensures
        grows(a, b),
{
    assert forall|j: int| 0 <= j < a.child_nodes@.len() implies
        (#[trigger] b.child_nodes@[j]).0 == a.child_nodes@[j].0 && grows(a.child_nodes@[j].1, b.child_nodes@[j].1) by {
        lemma_grows_refl(a.child_nodes@[j].1);
    }
}

/// What `grows` says of two nodes: the same rescaling, a key manager as far
/// on or further, and every old child in its place under the same path
/// element, grown in turn.
pub proof fn lemma_grows<R>(a: PathNodeContext<R>, b: PathNodeContext<R>)
    requires
        grows(a, b),
    ensures
        b.rescaling() == a.rescaling(),
        b.next_anon_key() >= a.next_anon_key(),
        b.children().len() >= a.children().len(),
        forall|j: int| 0 <= j < a.children().len() ==> {
            &&& (#[trigger] b.children()[j]).0 == a.children()[j].0
            &&& grows(a.children()[j].1, b.children()[j].1)
        },
{
}

/// Whether the path tree under `ctx` has a node at path `p` (a sequence of
/// path elements from `ctx` down).
pub open spec fn has_path<R>(ctx: PathNodeContext<R>, p: Seq<Seq<char>>) -> bool
    decreases p.len(),
{
    p.len() == 0 || (ctx.has_child(p[0]) && has_path(ctx.child(p[0]), p.drop_first()))
}

/// Whether `p` is a path into the value `v`: through sub entries by key,
/// anon map entries by their key in decimal, a variant by its name and a
/// present optional by `optional_key()`.
pub open spec fn value_has_path(v: value::NodeV, p: Seq<Seq<char>>) -> bool
    decreases p.len(),
{
    p.len() == 0 || match v {
        value::NodeV::Sub(es) => exists|i: int| #![trigger es[i]] 0 <= i < es.len() && es[i].0 == p[0] && value_has_path(es[i].1, p.drop_first()),
        value::NodeV::AnonMap(es) => exists|i: int| #![trigger es[i]] 0 <= i < es.len() && decimal(es[i].0 as nat) == p[0]
            && value_has_path(es[i].1, p.drop_first()),
        value::NodeV::Variant(name, c) => name == p[0] && value_has_path(*c, p.drop_first()),
        value::NodeV::Optional(o) => match o {
            Some(c) => optional_key() == p[0] && value_has_path(*c, p.drop_first()),
            None => false,
        },
        _ => false,
    }
}

/// Nodes with the same children have the same paths.
proof fn lemma_same_children_paths<R>(a: PathNodeContext<R>, b: PathNodeContext<R>)
    requires
        a.children() == b.children(),
    ensures
        forall|p: Seq<Seq<char>>| #[trigger] has_path(b, p) == has_path(a, p),
{
    assert forall|p: Seq<Seq<char>>| #[trigger] has_path(b, p) == has_path(a, p) by {
        assert(a.child_keys() == b.child_keys());
    }
}

/// A node without children has only the empty path.
proof fn lemma_no_children_paths<R>(a: PathNodeContext<R>)
    requires
        a.children().len() == 0,
    ensures
        forall|p: Seq<Seq<char>>| #[trigger] has_path(a, p) == (p.len() == 0),
{
    assert forall|p: Seq<Seq<char>>| #[trigger] has_path(a, p) == (p.len() == 0) by {
        if p.len() > 0 {
            assert(!a.child_keys().contains(p[0]));
        }
    }
}

/// The paths of a node whose child under `key` became `c` (from `c0`, the
/// old child or a fresh one), nothing else changing: the old paths, with
/// those through `key` being those of `c`.
proof fn lemma_child_paths<R>(a: PathNodeContext<R>, b: PathNodeContext<R>, key: Seq<char>, c0: PathNodeContext<R>, c: PathNodeContext<R>)
    requires
        a.has_child(key) ==> {
            let i = key_pos(a.child_keys(), key);
            &&& c0 == a.children()[i].1
            &&& b.children() == a.children().update(i, (a.children()[i].0, c))
        },
        !a.has_child(key) ==> {
            &&& b.children().len() == a.children().len() + 1
            &&& b.children().drop_last() == a.children()
            &&& b.children().last().0@ == key
            &&& b.children().last().1 == c
        },
    ensures
        forall|p: Seq<Seq<char>>| #![trigger has_path(b, p)] has_path(b, p) == (if p.len() > 0 && p[0] == key {
            has_path(c, p.drop_first())
        } else {
            has_path(a, p)
        }),
{
    lemma_key_pos(a.child_keys(), key);
    if a.has_child(key) {
        assert forall|j: int| 0 <= j < a.children().len() implies b.child_keys()[j] == a.child_keys()[j] by {
            assert(b.children()[j].0 == a.children()[j].0);
        }
        assert(b.child_keys() =~= a.child_keys());
        let i = key_pos(a.child_keys(), key);
        assert forall|p: Seq<Seq<char>>| #![trigger has_path(b, p)] has_path(b, p) == (if p.len() > 0 && p[0] == key {
            has_path(c, p.drop_first())
        } else {
            has_path(a, p)
        }) by {
            if p.len() > 0 && p[0] != key && a.has_child(p[0]) {
                let q = key_pos(a.child_keys(), p[0]);
                lemma_key_pos(a.child_keys(), p[0]);
                assert(q != i);
                assert(b.child(p[0]) == a.child(p[0]));
            }
        }
    } else {
        assert(b.child_keys() =~= a.child_keys().push(key));
        lemma_key_pos_pushed(a.child_keys(), key);
        assert forall|p: Seq<Seq<char>>| #![trigger has_path(b, p)] has_path(b, p) == (if p.len() > 0 && p[0] == key {
            has_path(c, p.drop_first())
        } else {
            has_path(a, p)
        }) by {
            if p.len() > 0 && p[0] != key {
                if a.has_child(p[0]) {
                    lemma_key_pos_push(a.child_keys(), key, p[0]);
                    lemma_key_pos(a.child_keys(), p[0]);
                    let q = key_pos(a.child_keys(), p[0]);
                    assert(b.child_keys()[q] == p[0]);
                    assert(b.has_child(p[0]));
                    assert(b.children()[q] == b.children().drop_last()[q]);
                } else {
                    if b.child_keys().contains(p[0]) {
                        let w = choose|w: int| 0 <= w < b.child_keys().len() && b.child_keys()[w] == p[0];
                        assert(w < a.child_keys().len());
                        assert(a.child_keys()[w] == p[0]);
                    }
                }
            }
        }
    }
}

/// The paths after the child under `key` took on the paths of `v` (from
/// `c0`, the old child or a fresh one): the old ones and those through `key`
/// into `v`.
proof fn lemma_child_step<R>(a: PathNodeContext<R>, b: PathNodeContext<R>, key: Seq<char>, c0: PathNodeContext<R>, c: PathNodeContext<R>, v: value::NodeV)
    requires
        a.has_child(key) ==> {
            let i = key_pos(a.child_keys(), key);
            &&& c0 == a.children()[i].1
            &&& b.children() == a.children().update(i, (a.children()[i].0, c))
        },
        !a.has_child(key) ==> {
            &&& c0.children().len() == 0
            &&& b.children().len() == a.children().len() + 1
            &&& b.children().drop_last() == a.children()
            &&& b.children().last().0@ == key
            &&& b.children().last().1 == c
        },
        forall|q: Seq<Seq<char>>| #[trigger] has_path(c, q) == (has_path(c0, q) || value_has_path(v, q)),
    ensures
        forall|p: Seq<Seq<char>>| #[trigger] has_path(b, p) == (has_path(a, p) || (p.len() > 0 && p[0] == key && value_has_path(v, p.drop_first()))),
{
    lemma_child_paths(a, b, key, c0, c);
    if !a.has_child(key) {
        lemma_no_children_paths(c0);
    }
    assert forall|p: Seq<Seq<char>>| #[trigger] has_path(b, p) == (has_path(a, p) || (p.len() > 0 && p[0] == key && value_has_path(v, p.drop_first()))) by {
        if p.len() > 0 && p[0] == key {
            let rest = p.drop_first();
            assert(has_path(c, rest) == (has_path(c0, rest) || value_has_path(v, rest)));
            if !a.has_child(key) {
                if has_path(c0, rest) {
                    assert(rest.len() == 0);
                }
            }
        }
    }
}

/// A key appended to keys that lack it is found at the end.
proof fn lemma_key_pos_pushed(keys: Seq<Seq<char>>, x: Seq<char>)
    requires
        !keys.contains(x),
    ensures
        key_pos(keys.push(x), x) == keys.len(),
{
    lemma_key_pos(keys.push(x), x);
    assert(keys.push(x)[keys.len() as int] == x);
    let j = key_pos(keys.push(x), x);
    if j < keys.len() {
        assert(keys[j] == x);
    }
}

/// Every node covers more than itself.
proof fn lemma_covers_more_refl<R>(a: PathNodeContext<R>)
    ensures
        covers_more(a, a),
{
}

/// Covering more is transitive.
proof fn lemma_covers_more_trans<R>(a: PathNodeContext<R>, b: PathNodeContext<R>, c: PathNodeContext<R>)
    requires
        covers_more(a, b),
        covers_more(b, c),
    ensures
        covers_more(a, c),
{
    assert forall|w: value::NodeV| covers(a, w) implies #[trigger] covers(c, w) by {
        assert(covers(b, w));
    }
}

/// After a child was fetched or created under `key` and then grown to cover
/// more, the node covers more than before, and its child under `key` is the
/// grown one.
proof fn lemma_child_grown<R>(a: PathNodeContext<R>, b: PathNodeContext<R>, key: Seq<char>, c0: PathNodeContext<R>, c: PathNodeContext<R>)
    requires
        a.next_anon_key() <= b.next_anon_key(),
        covers_more(c0, c),
        a.has_child(key) ==> {
            let i = key_pos(a.child_keys(), key);
            &&& c0 == a.children()[i].1
            &&& b.children() == a.children().update(i, (a.children()[i].0, c))
        },
        !a.has_child(key) ==> {
            &&& b.children().len() == a.children().len() + 1
            &&& b.children().drop_last() == a.children()
            &&& b.children().last().0@ == key
            &&& b.children().last().1 == c
        },
    ensures
        covers_more(a, b),
        children_cover_more(a, b),
        b.has_child(key),
        b.child(key) == c,
{
    lemma_key_pos(a.child_keys(), key);
    if a.has_child(key) {
        let i = key_pos(a.child_keys(), key);
        assert forall|j: int| 0 <= j < a.children().len() implies (#[trigger] b.children()[j]).0 == a.children()[j].0
            && covers_more(a.children()[j].1, b.children()[j].1) by {
            if j != i {
                lemma_covers_more_refl(a.children()[j].1);
            }
        }
        lemma_children_cover_more(a, b);
        assert forall|j: int| 0 <= j < a.children().len() implies b.child_keys()[j] == a.child_keys()[j] by {
            assert(b.children()[j].0 == a.children()[j].0);
        }
        assert(b.child_keys() =~= a.child_keys());
    } else {
        lemma_push_child(a, b);
        assert(b.child_keys() =~= a.child_keys().push(key));
        lemma_key_pos_pushed(a.child_keys(), key);
        assert(b.child_keys()[a.children().len() as int] == key);
    }
}

impl<R: Default> PathNodeContext<R> {
    /// Adds a node for every path into `node` that has none yet, and records
    /// every anon map key with the key manager of that anon map's node.
    pub fn add_nodes_for(&mut self, node: &value::Node)
        requires
            keys_below_max(node@),
        ensures
            covers(*final(self), node@),
            covers_more(*old(self), *final(self)),
            grows(*old(self), *final(self)),
            forall|p: Seq<Seq<char>>| #[trigger] has_path(*final(self), p) == (has_path(*old(self), p) || value_has_path(node@, p)),
            final(self).rescaling() == old(self).rescaling(),
            final(self).next_anon_key() >= old(self).next_anon_key(),
        decreases node,
    {
        let ghost start = *self;
        proof { lemma_grows_refl(start); }
        match node {
            value::Node::Sub(mapping) => {
                let ghost es = value::sub_entries_view(mapping@);
                assert(node@ == value::NodeV::Sub(es));
                let mut i: usize = 0;
                while i < mapping.len()
                    invariant
                        i <= mapping@.len(),
                        es == value::sub_entries_view(mapping@),
                        *node == value::Node::Sub(*mapping),
                        keys_below_max(node@),
                        node@ == value::NodeV::Sub(es),
                        covers_more(start, *self),
                        covers_sub_entries(*self, es, i as int),
                        self.rescaling() == start.rescaling(),
                        self.next_anon_key() >= start.next_anon_key(),
                        grows(start, *self),
                        forall|p: Seq<Seq<char>>| #[trigger] has_path(*self, p) == (has_path(start, p) || (p.len() > 0
                            && exists|j: int| 0 <= j < i && (#[trigger] es[j]).0 == p[0] && value_has_path(es[j].1, p.drop_first()))),
                    decreases mapping.len() - i,
                {
                    proof {
                        assert(decreases_to!(*node => (*node)->Sub_0));
                        assert(decreases_to!((*node)->Sub_0 => mapping@));
                        assert(decreases_to!(mapping@ => mapping@[i as int]));
                        assert(decreases_to!(mapping@[i as int] => mapping@[i as int].1));
                        assert(es[i as int].1 == mapping@[i as int].1@);
                        assert(es[i as int].0 == mapping@[i as int].0@);
                        assert(0 <= i < es.len());
                        lemma_keys_below_max_sub(node@, i as int);
                    }
                    let ghost before = *self;
                    let key: &str = mapping[i].0.as_str();
                    let child = self.get_or_create_child_mut(key);
                    let ghost c0 = *child;
                    child.add_nodes_for(&mapping[i].1);
                    proof {
                        lemma_child_grown(before, *self, key@, c0, *child);
                        lemma_child_grows(before, *self, key@, c0, *child);
                        lemma_grows_trans(start, before, *self);
                        lemma_child_step(before, *self, key@, c0, *child, es[i as int].1);
                        assert forall|p: Seq<Seq<char>>| #[trigger] has_path(*self, p) == (has_path(start, p) || (p.len() > 0
                            && exists|j: int| 0 <= j < i + 1 && (#[trigger] es[j]).0 == p[0] && value_has_path(es[j].1, p.drop_first()))) by {
                            assert(has_path(before, p) == (has_path(start, p) || (p.len() > 0
                                && exists|j: int| 0 <= j < i && (#[trigger] es[j]).0 == p[0] && value_has_path(es[j].1, p.drop_first()))));
                            if p.len() > 0 && exists|j: int| 0 <= j < i + 1 && (#[trigger] es[j]).0 == p[0] && value_has_path(es[j].1, p.drop_first()) {
                                let w = choose|j: int| 0 <= j < i + 1 && (#[trigger] es[j]).0 == p[0] && value_has_path(es[j].1, p.drop_first());
                                if w < i {
                                    assert(es[w].0 == p[0]);
                                }
                            }
                            if p.len() > 0 && p[0] == key@ && value_has_path(es[i as int].1, p.drop_first()) {
                                assert(es[i as int].0 == p[0]);
                            }
                        }
                        lemma_covers_more_trans(start, before, *self);
                        assert forall|j: int| 0 <= j < i + 1 implies
                            self.has_child(#[trigger] es[j].0) && covers(self.child(es[j].0), es[j].1) by {
                            if j < i {
                                assert(before.has_child(es[j].0));
                                assert(covers_more(before.child(es[j].0), self.child(es[j].0)));
                            }
                        }
                    }
                    i = i + 1;
                }
                proof {
                    assert forall|p: Seq<Seq<char>>| #[trigger] has_path(*self, p) == (has_path(start, p) || value_has_path(node@, p)) by {
                        if p.len() > 0 && exists|j: int| 0 <= j < es.len() && (#[trigger] es[j]).0 == p[0] && value_has_path(es[j].1, p.drop_first()) {
                            let w = choose|j: int| 0 <= j < es.len() && (#[trigger] es[j]).0 == p[0] && value_has_path(es[j].1, p.drop_first());
                            assert(node@ == value::NodeV::Sub(es));
                            assert(es[w].0 == p[0] && value_has_path(es[w].1, p.drop_first()));
                            assert(exists|i: int| #![trigger es[i]] 0 <= i < es.len() && es[i].0 == p[0] && value_has_path(es[i].1, p.drop_first()));
                            assert(value::NodeV::Sub(es)->Sub_0 == es);
                            assert(value_has_path(value::NodeV::Sub(es), p));
                            assert(value_has_path(node@, p));
                        }
                        if p.len() > 0 && value_has_path(node@, p) {
                            let w = choose|j: int| 0 <= j < es.len() && (#[trigger] es[j]).0 == p[0] && value_has_path(es[j].1, p.drop_first());
                            assert(es[w].0 == p[0]);
                        }
                    }
                }
            },
            value::Node::AnonMap(mapping) => {
                let ghost es = value::anon_entries_view(mapping@);
                assert(node@ == value::NodeV::AnonMap(es));
                let mut i: usize = 0;
                while i < mapping.len()
                    invariant
                        i <= mapping@.len(),
                        es == value::anon_entries_view(mapping@),
                        *node == value::Node::AnonMap(*mapping),
                        keys_below_max(node@),
                        node@ == value::NodeV::AnonMap(es),
                        covers_more(start, *self),
                        covers_anon_entries(*self, es, i as int),
                        self.rescaling() == start.rescaling(),
                        self.next_anon_key() >= start.next_anon_key(),
                        grows(start, *self),
                        forall|p: Seq<Seq<char>>| #[trigger] has_path(*self, p) == (has_path(start, p) || (p.len() > 0
                            && exists|j: int| 0 <= j < i && decimal((#[trigger] es[j]).0 as nat) == p[0] && value_has_path(es[j].1, p.drop_first()))),
                    decreases mapping.len() - i,
                {
                    proof {
                        assert(decreases_to!(*node => (*node)->AnonMap_0));
                        assert(decreases_to!((*node)->AnonMap_0 => mapping@));
                        assert(decreases_to!(mapping@ => mapping@[i as int]));
                        assert(decreases_to!(mapping@[i as int] => mapping@[i as int].1));
                        assert(es[i as int].1 == mapping@[i as int].1@);
                        assert(es[i as int].0 == mapping@[i as int].0);
                        lemma_keys_below_max_anon(node@, i as int);
                    }
                    let ghost before = *self;
                    let k: usize = mapping[i].0;
                    self.key_mgr.on_key_seen(k);
                    proof {
                        lemma_children_cover_more(before, *self);
                        lemma_covers_more_trans(start, before, *self);
                        lemma_keys_grow(before, *self);
                        lemma_grows_trans(start, before, *self);
                        lemma_same_children_paths(before, *self);
                    }
                    let ghost raised = *self;
                    let key = usize_to_decimal(k);
                    let child = self.get_or_create_child_mut(key.as_str());
                    let ghost c0 = *child;
                    child.add_nodes_for(&mapping[i].1);
                    proof {
                        lemma_child_grown(raised, *self, key@, c0, *child);
                        lemma_child_grows(raised, *self, key@, c0, *child);
                        lemma_grows_trans(start, raised, *self);
                        lemma_child_step(raised, *self, key@, c0, *child, es[i as int].1);
                        assert forall|p: Seq<Seq<char>>| #[trigger] has_path(*self, p) == (has_path(start, p) || (p.len() > 0
                            && exists|j: int| 0 <= j < i + 1 && decimal((#[trigger] es[j]).0 as nat) == p[0] && value_has_path(es[j].1, p.drop_first()))) by {
                            assert(has_path(raised, p) == has_path(before, p));
                            assert(has_path(before, p) == (has_path(start, p) || (p.len() > 0
                                && exists|j: int| 0 <= j < i && decimal((#[trigger] es[j]).0 as nat) == p[0] && value_has_path(es[j].1, p.drop_first()))));
                            if p.len() > 0 && exists|j: int| 0 <= j < i + 1 && decimal((#[trigger] es[j]).0 as nat) == p[0] && value_has_path(es[j].1, p.drop_first()) {
                                let w = choose|j: int| 0 <= j < i + 1 && decimal((#[trigger] es[j]).0 as nat) == p[0] && value_has_path(es[j].1, p.drop_first());
                                if w < i {
                                    assert(decimal(es[w].0 as nat) == p[0]);
                                }
                            }
                            if p.len() > 0 && p[0] == key@ && value_has_path(es[i as int].1, p.drop_first()) {
                                assert(decimal(es[i as int].0 as nat) == p[0]);
                            }
                        }
                        lemma_covers_more_trans(start, raised, *self);
                        assert forall|j: int| 0 <= j < i + 1 implies
                            self.has_child(decimal((#[trigger] es[j]).0 as nat))
                            && covers(self.child(decimal(es[j].0 as nat)), es[j].1)
                            && es[j].0 < self.next_anon_key() by {
                            if j < i {
                                assert(before.has_child(decimal(es[j].0 as nat)));
                                assert(raised.has_child(decimal(es[j].0 as nat)));
                                assert(covers_more(raised.child(decimal(es[j].0 as nat)), self.child(decimal(es[j].0 as nat))));
                            }
                        }
                    }
                    i = i + 1;
                }
                proof {
                    assert forall|p: Seq<Seq<char>>| #[trigger] has_path(*self, p) == (has_path(start, p) || value_has_path(node@, p)) by {
                        if p.len() > 0 && exists|j: int| 0 <= j < es.len() && decimal((#[trigger] es[j]).0 as nat) == p[0] && value_has_path(es[j].1, p.drop_first()) {
                            let w = choose|j: int| 0 <= j < es.len() && decimal((#[trigger] es[j]).0 as nat) == p[0] && value_has_path(es[j].1, p.drop_first());
                            assert(node@ == value::NodeV::AnonMap(es));
                            assert(decimal(es[w].0 as nat) == p[0] && value_has_path(es[w].1, p.drop_first()));
                            assert(exists|i: int| #![trigger es[i]] 0 <= i < es.len() && decimal(es[i].0 as nat) == p[0] && value_has_path(es[i].1, p.drop_first()));
                            assert(value::NodeV::AnonMap(es)->AnonMap_0 == es);
                            assert(value_has_path(value::NodeV::AnonMap(es), p));
                            assert(value_has_path(node@, p));
                        }
                        if p.len() > 0 && value_has_path(node@, p) {
                            let w = choose|j: int| 0 <= j < es.len() && decimal((#[trigger] es[j]).0 as nat) == p[0] && value_has_path(es[j].1, p.drop_first());
                            assert(decimal(es[w].0 as nat) == p[0]);
                        }
                    }
                }
            },
            value::Node::Variant(name, value) => {
                let child = self.get_or_create_child_mut(name.as_str());
                let ghost c0 = *child;
                child.add_nodes_for(value);
                proof {
                    lemma_child_grown(start, *self, name@, c0, *child);
                    lemma_child_grows(start, *self, name@, c0, *child);
                    lemma_child_step(start, *self, name@, c0, *child, value@);
                    assert(node@ == value::NodeV::Variant(name@, Box::new(value@)));
                }
            },
            value::Node::Optional(value_option) => {
                match value_option {
                    Some(value) => {
                        let child = self.get_or_create_child_mut("optional");
                        let ghost c0 = *child;
                        child.add_nodes_for(value);
                        proof {
                            reveal_strlit("optional");
                            lemma_child_grown(start, *self, optional_key(), c0, *child);
                            lemma_child_grows(start, *self, optional_key(), c0, *child);
                            lemma_child_step(start, *self, optional_key(), c0, *child, value@);
                            assert(value::optional_view(*value_option) == Some(Box::new(value::node_view(**value))));
                        }
                    },
                    None => {},
                }
            },
            _ => {
                proof {
                    assert forall|p: Seq<Seq<char>>| #[trigger] has_path(*self, p) == (has_path(start, p) || value_has_path(node@, p)) by {
                        if p.len() == 0 {
                            assert(has_path(start, p));
                        }
                    }
                }
            },
        }
    }

    /// The number of children.
    pub fn num_children(&self) -> (r: usize)
        ensures
            r == self.children().len(),
    {
        self.child_nodes.len()
    }
}

impl<R: Default> Default for PathNodeContext<R> {
    /// A node with no children, the default rescaling and keys from 0.
    fn default() -> (r: PathNodeContext<R>)
        ensures
            r.children().len() == 0,
            r.next_anon_key() == 0,
    {
        PathNodeContext::new(R::default())
    }
}

impl<R: Default> Default for PathContext<R> {
    /// A path tree with only its root.
    fn default() -> (r: PathContext<R>)
        ensures
            r.0.children().len() == 0,
            r.0.next_anon_key() == 0,
    {
        PathContext(PathNodeContext::new(R::default()))
    }
}

} // verus!
