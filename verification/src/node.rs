//! The live tree: runtime nodes kept in an arena and addressed by stable
//! indices, with parent links stored as optional parent indices. Structural
//! mutation (attach, detach, replace), deterministic path-hash identifier
//! assignment, and root-path resolution all go through the arena.

use crate::text::extract;
use crate::tree::AttrMap;
use std::collections::hash_map::DefaultHasher;
use std::hash::Hasher;
use vstd::prelude::*;
use vstd::std_specs::hash::DefaultHasherAdditionalSpecFns;

verus! {

/// A runtime tree node: its attributes, the arena indices of its children in
/// order, its tag, and a non-owning back-reference to its parent, absent for
/// a root.
#[derive(Debug, PartialEq, Eq)]
pub struct Node {
    pub attrs: AttrMap,
    pub children: Vec<usize>,
    pub tag: Vec<char>,
    pub pre: Option<usize>,
}

/// Mathematical model of a [`Node`].
pub struct NodeV {
    pub attrs: Map<Seq<char>, Seq<char>>,
    pub children: Seq<usize>,
    pub tag: Seq<char>,
    pub pre: Option<usize>,
}

/// The model of a [`Node`].
pub open spec fn node_view(n: Node) -> NodeV {
    NodeV { attrs: n.attrs@, children: n.children@, tag: n.tag@, pre: n.pre }
}

impl View for Node {
    type V = NodeV;

    open spec fn view(&self) -> NodeV {
        node_view(*self)
    }
}

/// The arena that owns every node of one live tree (or forest).
#[derive(Debug, PartialEq, Eq)]
pub struct Arena {
    pub nodes: Vec<Node>,
}

impl View for Arena {
    type V = Seq<NodeV>;

    open spec fn view(&self) -> Seq<NodeV> {
        Seq::new(self.nodes@.len(), |i: int| self.nodes@[i]@)
    }
}

/// Every child index and every parent index points into the arena.
pub open spec fn in_range(a: Seq<NodeV>) -> bool {
    &&& forall|i: int, k: int|
        0 <= i < a.len() && 0 <= k < a[i].children.len() ==> (#[trigger] a[i].children[k])
            < a.len()
    &&& forall|i: int|
        0 <= i < a.len() ==> match #[trigger] a[i].pre {
            Some(p) => p < a.len(),
            None => true,
        }
}

/// The attribute maps of all nodes have distinct keys.
pub open spec fn attrs_wf(a: &Arena) -> bool {
    forall|i: int| 0 <= i < a.nodes@.len() ==> (#[trigger] a.nodes@[i]).attrs.wf()
}

/// The children lists of the arena's nodes.
pub open spec fn children_of(a: Seq<NodeV>) -> Seq<Seq<usize>> {
    Seq::new(a.len(), |i: int| a[i].children)
}

/// The parent links of the arena's nodes.
pub open spec fn pre_of(a: Seq<NodeV>) -> Seq<Option<usize>> {
    Seq::new(a.len(), |i: int| a[i].pre)
}

/// A ranking that strictly decreases from a node to each of its children.
pub open spec fn down_ok(cs: Seq<Seq<usize>>, rd: Map<int, nat>) -> bool {
    forall|i: int, k: int|
        0 <= i < cs.len() && 0 <= k < cs[i].len() ==> rd[#[trigger] cs[i][k] as int] < rd[i]
}

/// The child relation admits a strictly decreasing ranking, so no node is
/// its own descendant.
pub open spec fn down_acyclic(cs: Seq<Seq<usize>>) -> bool {
    exists|rd: Map<int, nat>| down_ok(cs, rd)
}

/// A ranking that strictly decreases from a node to its parent.
pub open spec fn up_ok(ps: Seq<Option<usize>>, ru: Map<int, nat>) -> bool {
    forall|i: int|
        0 <= i < ps.len() ==> match #[trigger] ps[i] {
            Some(p) => ru[p as int] < ru[i],
            None => true,
        }
}

/// The parent relation admits a strictly decreasing ranking, so no node is
/// its own ancestor.
pub open spec fn up_acyclic(ps: Seq<Option<usize>>) -> bool {
    exists|ru: Map<int, nat>| up_ok(ps, ru)
}

/// The index of the first occurrence of `c` in `ks` at or after `k`, or `-1`
/// when there is none.
pub open spec fn first_idx_from(ks: Seq<usize>, c: usize, k: int) -> int
    decreases ks.len() - k,
    when 0 <= k <= ks.len()
{
    if k >= ks.len() {
        -1
    } else if ks[k] == c {
        k
    } else {
        first_idx_from(ks, c, k + 1)
    }
}

/// The index of the first occurrence of `c` in `ks`, or `-1` when absent.
pub open spec fn first_idx(ks: Seq<usize>, c: usize) -> int {
    first_idx_from(ks, c, 0)
}

/// `first_idx_from` finds exactly the first occurrence at or after `k`.
pub proof fn lemma_first_idx_from(ks: Seq<usize>, c: usize, k: int)
    requires
        0 <= k <= ks.len(),
    ensures
        first_idx_from(ks, c, k) == -1 <==> (forall|j: int| k <= j < ks.len() ==> ks[j] != c),
        first_idx_from(ks, c, k) != -1 ==> k <= first_idx_from(ks, c, k) < ks.len()
            && ks[first_idx_from(ks, c, k)] == c && (forall|j: int|
            k <= j < first_idx_from(ks, c, k) ==> ks[j] != c),
    decreases ks.len() - k,
{
    if k < ks.len() && ks[k] != c {
        lemma_first_idx_from(ks, c, k + 1);
    }
}

/// `first_idx` finds exactly the first occurrence.
pub proof fn lemma_first_idx(ks: Seq<usize>, c: usize)
    ensures
        first_idx(ks, c) == -1 <==> (forall|k: int| 0 <= k < ks.len() ==> ks[k] != c),
        first_idx(ks, c) >= 0 ==> 0 <= first_idx(ks, c) < ks.len() && ks[first_idx(ks, c)] == c
            && (forall|k: int| 0 <= k < first_idx(ks, c) ==> ks[k] != c),
{
    lemma_first_idx_from(ks, c, 0);
}

/// The sequence with its first occurrence of `c` removed, if any.
pub open spec fn remove_first(ks: Seq<usize>, c: usize) -> Seq<usize> {
    if first_idx(ks, c) >= 0 {
        ks.remove(first_idx(ks, c))
    } else {
        ks
    }
}

/// The arena after a child is attached under a parent: the child's back-
/// reference points at the parent, and the child's index is appended to the
/// parent's children.
pub open spec fn push_v(a: Seq<NodeV>, r: int, c: int) -> Seq<NodeV> {
    let a1 = a.update(c, NodeV { pre: Some(r as usize), ..a[c] });
    a1.update(r, NodeV { children: a1[r].children.push(c as usize), ..a1[r] })
}

/// The arena after the first child equal to `c` is detached from `s`. The
/// detached child keeps its back-reference; only the forward edge is cut.
pub open spec fn remove_v(a: Seq<NodeV>, s: int, c: usize) -> Seq<NodeV> {
    a.update(s, NodeV { children: remove_first(a[s].children, c), ..a[s] })
}

impl Node {
    /// Allocate a new node in the arena and return its index.
    pub fn new(
        a: &mut Arena,
        attrs: AttrMap,
        children: Vec<usize>,
        pre: Option<usize>,
        tag: Vec<char>,
    ) -> (i: usize)
        ensures
            i == old(a)@.len(),
            final(a)@ == old(a)@.push(
                NodeV { attrs: attrs@, children: children@, tag: tag@, pre },
            ),
            attrs_wf(old(a)) && attrs.wf() ==> attrs_wf(final(a)),
    {
        let i = a.nodes.len();
        a.nodes.push(Node { attrs, children, tag, pre });
        proof {
            assert(a@ =~= old(a)@.push(a.nodes@.last()@));
        }
        i
    }

    /// Attach the node at `c` under the node at `r`: set `c`'s back-reference
    /// to `r`, append `c` to `r`'s children, and run the update hook on `r`.
    pub fn push(a: &mut Arena, r: usize, c: usize)
        requires
            r < old(a)@.len(),
            c < old(a)@.len(),
        ensures
            final(a)@ == push_v(old(a)@, r as int, c as int),
            attrs_wf(old(a)) ==> attrs_wf(final(a)),
    {
        a.nodes[c].pre = Some(r);
        proof {
            assert(a@ =~= old(a)@.update(c as int, NodeV { pre: Some(r), ..old(a)@[c as int] }));
        }
        let ghost mid = a@;
        a.nodes[r].children.push(c);
        proof {
            assert(a@ =~= mid.update(
                r as int,
                NodeV { children: mid[r as int].children.push(c), ..mid[r as int] },
            ));
        }
        Node::update(a, r);
    }

    /// Detach the first child equal to `c` from the node at `s`, then run the
    /// update hook on `s`. The detached child keeps its back-reference.
    pub fn remove(a: &mut Arena, s: usize, c: usize)
        requires
            s < old(a)@.len(),
        ensures
            final(a)@ == remove_v(old(a)@, s as int, c),
            attrs_wf(old(a)) ==> attrs_wf(final(a)),
    {
        let ghost ks = a@[s as int].children;
        let n = a.nodes[s].children.len();
        let mut k: usize = 0;
        proof {
            lemma_first_idx(ks, c);
        }
        while k < n
            invariant
                0 <= k <= n,
                s < a@.len(),
                a@ == old(a)@,
                a.nodes@ == old(a).nodes@,
                n == a@[s as int].children.len(),
                ks == a@[s as int].children,
                forall|j: int| 0 <= j < k ==> ks[j] != c,
            decreases n - k,
        {
            if a.nodes[s].children[k] == c {
                proof {
                    lemma_first_idx_from(ks, c, 0);
                    assert(first_idx_from(ks, c, 0) == k) by {
                        lemma_first_idx_from(ks, c, 0);
                        assert(ks[k as int] == c);
                    }
                }
                a.nodes[s].children.remove(k);
                proof {
                    assert(a@ =~= remove_v(old(a)@, s as int, c));
                    assert(forall|i: int|
                        0 <= i < a.nodes@.len() ==> (#[trigger] a.nodes@[i]).attrs == old(
                            a,
                        ).nodes@[i].attrs);
                }
                Node::update(a, s);
                return ;
            }
            k = k + 1;
        }
        proof {
            lemma_first_idx_from(ks, c, 0);
            assert(first_idx(ks, c) == -1);
            assert(a@ =~= remove_v(old(a)@, s as int, c));
        }
        Node::update(a, s);
    }

    /// Swap the content of the node at `s` for `t`, keeping `s`'s existing
    /// back-reference, then run the update hook. Every holder of the index
    /// `s` observes the new content.
    pub fn replace(a: &mut Arena, s: usize, t: Node)
        requires
            s < old(a)@.len(),
        ensures
            final(a)@ == old(a)@.update(
                s as int,
                NodeV { pre: old(a)@[s as int].pre, ..t@ },
            ),
            attrs_wf(old(a)) && t.attrs.wf() ==> attrs_wf(final(a)),
    {
        let pre_keep = a.nodes[s].pre;
        a.nodes[s] = Node { attrs: t.attrs, children: t.children, tag: t.tag, pre: pre_keep };
        proof {
            assert(a@ =~= old(a)@.update(s as int, NodeV { pre: old(a)@[s as int].pre, ..t@ }));
        }
        Node::update(a, s);
    }

    /// Detach the node at `t` from its parent, if its back-reference resolves
    /// to a node of the arena; a root, or a back-reference that does not
    /// resolve, makes this a no-op.
    pub fn drain(a: &mut Arena, t: usize)
        requires
            t < old(a)@.len(),
        ensures
            final(a)@ == match old(a)@[t as int].pre {
                Some(p) => if p < old(a)@.len() {
                    remove_v(old(a)@, p as int, t)
                } else {
                    old(a)@
                },
                None => old(a)@,
            },
            attrs_wf(old(a)) ==> attrs_wf(final(a)),
    {
        let pre = a.nodes[t].pre;
        match pre {
            Some(p) => {
                if p < a.nodes.len() {
                    Node::remove(a, p, t);
                    Node::update(a, p);
                }
            },
            None => {},
        }
    }

    /// The update hook, run after every structural mutation; the base
    /// behaviour changes nothing, and a reconciliation layer supplies the
    /// meaning.
    pub fn update(a: &mut Arena, s: usize)
        ensures
            final(a)@ == old(a)@,
            final(a).nodes@ == old(a).nodes@,
    {
    }
}

} // verus!

verus! {

/// The sixteen hexadecimal digit characters.
pub open spec fn hex_digit(d: nat) -> char {
    if d == 0 {
        '0'
    } else if d == 1 {
        '1'
    } else if d == 2 {
        '2'
    } else if d == 3 {
        '3'
    } else if d == 4 {
        '4'
    } else if d == 5 {
        '5'
    } else if d == 6 {
        '6'
    } else if d == 7 {
        '7'
    } else if d == 8 {
        '8'
    } else if d == 9 {
        '9'
    } else if d == 10 {
        'a'
    } else if d == 11 {
        'b'
    } else if d == 12 {
        'c'
    } else if d == 13 {
        'd'
    } else if d == 14 {
        'e'
    } else {
        'f'
    }
}

/// The lowercase hexadecimal digits of `n`, most significant first, without
/// leading zeroes.
pub open spec fn hex_of(n: nat) -> Seq<char>
    decreases n,
{
    if n < 16 {
        seq![hex_digit(n)]
    } else {
        hex_of(n / 16).push(hex_digit(n % 16))
    }
}

/// The last `n` elements of `s`, or all of `s` when it is shorter.
pub open spec fn last_n(s: Seq<char>, n: int) -> Seq<char> {
    if s.len() > n {
        s.subrange(s.len() - n, s.len() as int)
    } else {
        s
    }
}

/// The deterministic path-hash identifier: the tag, a dash, and the last six
/// hexadecimal digits of the standard hasher's digest of the byte sequence.
pub open spec fn hash_name(tag: Seq<char>, bytes: Seq<u8>) -> Seq<char> {
    tag + seq!['-'] + last_n(hex_of(DefaultHasher::spec_finish(seq![bytes]) as nat), 6)
}

/// One hexadecimal digit character.
fn hex_digit_exec(d: u64) -> (c: char)
    requires
        d < 16,
    ensures
        c == hex_digit(d as nat),
{
    if d == 0 {
        '0'
    } else if d == 1 {
        '1'
    } else if d == 2 {
        '2'
    } else if d == 3 {
        '3'
    } else if d == 4 {
        '4'
    } else if d == 5 {
        '5'
    } else if d == 6 {
        '6'
    } else if d == 7 {
        '7'
    } else if d == 8 {
        '8'
    } else if d == 9 {
        '9'
    } else if d == 10 {
        'a'
    } else if d == 11 {
        'b'
    } else if d == 12 {
        'c'
    } else if d == 13 {
        'd'
    } else if d == 14 {
        'e'
    } else {
        'f'
    }
}

/// The lowercase hexadecimal digits of `n`.
fn to_hex(n: u64) -> (r: Vec<char>)
    ensures
        r@ == hex_of(n as nat),
    decreases n,
{
    if n < 16 {
        let mut r: Vec<char> = Vec::new();
        r.push(hex_digit_exec(n));
        proof {
            assert(r@ =~= seq![hex_digit(n as nat)]);
        }
        r
    } else {
        let mut r = to_hex(n / 16);
        r.push(hex_digit_exec(n % 16));
        r
    }
}

/// The identifier derived from a tag and the bytes of a root-to-node path:
/// `tag-xxxxxx`, where the digits are the tail of the digest of the path.
pub fn hash(tag: &[char], s: &[u8]) -> (r: Vec<char>)
    ensures
        r@ == hash_name(tag@, s@),
{
    let mut hasher = DefaultHasher::new();
    hasher.write(s);
    let d = hasher.finish();
    proof {
        assert(hasher@ =~= seq![s@]);
    }
    let hx = to_hex(d);
    let lo = if hx.len() > 6 {
        hx.len() - 6
    } else {
        0
    };
    let mut digits = extract(hx.as_slice(), lo, hx.len());
    let mut r = extract(tag, 0, tag.len());
    r.push('-');
    r.append(&mut digits);
    proof {
        assert(tag@.subrange(0, tag@.len() as int) =~= tag@);
        assert(hx@.subrange(0, hx@.len() as int) =~= hx@);
        assert(r@ =~= hash_name(tag@, s@));
    }
    r
}

/// Law: attaching a freshly constructed leaf under a parent and then
/// detaching that same node restores the parent's children sequence to its
/// prior value, and leaves every node other than the fresh one as it was.
pub proof fn lemma_push_then_remove(a: Seq<NodeV>, r: int, node: NodeV, c: usize)
    requires
        in_range(a),
        0 <= r < a.len(),
        node.children.len() == 0,
        c as int == a.len(),
    ensures
        ({
            let a1 = a.push(node);
            let a2 = push_v(a1, r, c as int);
            let a3 = remove_v(a2, r, c);
            &&& a3[r].children == a[r].children
            &&& a3[r] == a1[r]
            &&& forall|i: int| 0 <= i < a1.len() && i != c ==> a3[i] == a1[i]
            &&& a3[c as int].pre == Some(r as usize)
        }),
{
    let a1 = a.push(node);
    let a2 = push_v(a1, r, c as int);
    let a3 = remove_v(a2, r, c);
    let ks = a1[r].children;
    assert(ks == a[r].children);
    assert(a2[r].children == ks.push(c));
    assert(forall|k: int| 0 <= k < ks.len() ==> (#[trigger] ks[k]) < a.len());
    lemma_first_idx_from(ks.push(c), c, 0);
    let fi = first_idx(ks.push(c), c);
    assert(ks.push(c)[ks.len() as int] == c);
    assert(fi != -1);
    assert(fi == ks.len()) by {
        if fi < ks.len() {
            assert(ks.push(c)[fi] == ks[fi]);
        }
    }
    assert(remove_first(ks.push(c), c) =~= ks);
}

/// Law: replacing a node's content preserves its back-reference, and when the
/// node has a parent, the parent's children still hold it at the same
/// position, now carrying the new content.
pub proof fn lemma_replace_preserves_linkage(a: Seq<NodeV>, s: int, t: NodeV, p: int, k: int)
    requires
        0 <= s < a.len(),
        0 <= p < a.len(),
        p != s,
        0 <= k < a[p].children.len(),
        a[p].children[k] == s,
    ensures
        ({
            let a2 = a.update(s, NodeV { pre: a[s].pre, ..t });
            &&& a2[s].pre == a[s].pre
            &&& a2[s].tag == t.tag
            &&& a2[s].attrs == t.attrs
            &&& a2[s].children == t.children
            &&& a2[p].children[k] == s
        }),
{
}

} // verus!

verus! {

/// The attribute name under which the path-hash identifier is stored.
pub open spec fn id_key() -> Seq<char> {
    seq!['i', 'd']
}

/// A ranking witnessing that the child relation is acyclic.
pub open spec fn rd_of(cs: Seq<Seq<usize>>) -> Map<int, nat> {
    choose|rd: Map<int, nat>| down_ok(cs, rd)
}

/// A ranking witnessing that the parent relation is acyclic.
pub open spec fn ru_of(ps: Seq<Option<usize>>) -> Map<int, nat> {
    choose|ru: Map<int, nat>| up_ok(ps, ru)
}

/// A byte incremented, wrapping at the top as a release-mode increment does.
pub open spec fn bump(b: u8) -> u8 {
    if b == 255 {
        0
    } else {
        (b + 1) as u8
    }
}

/// A node's attributes after identifier assignment over `path`: the
/// identifier is written only when none is present.
pub open spec fn node_idx_attrs(n: NodeV, path: Seq<u8>) -> Map<Seq<char>, Seq<char>> {
    if n.attrs.contains_key(id_key()) {
        n.attrs
    } else {
        n.attrs.insert(id_key(), hash_name(n.tag, path))
    }
}

/// Pre-order identifier assignment from the node `s`: assign `s` its
/// path-hash identifier if absent, push a zero onto the path, index each
/// child in order, and bump the path's last element after each child (the
/// bump wraps, as a release-mode byte increment does). Yields the arena and
/// the path as the walk leaves them.
pub open spec fn idx_spec(a: Seq<NodeV>, s: int, path: Seq<u8>) -> (Seq<NodeV>, Seq<u8>)
    decreases rd_of(children_of(a))[s], a[s].children.len() + 1,
    when 0 <= s < a.len() && down_acyclic(children_of(a))
{
    let a1 = a.update(s, NodeV { attrs: node_idx_attrs(a[s], path), ..a[s] });
    proof {
        assert(children_of(a1) =~= children_of(a));
    }
    idx_kids(a1, s, 0, path.push(0u8))
}

/// The tail of the pre-order walk: the children of `s` from position `k` on.
/// The guards hold on every walk the executable code performs; they keep the
/// recursion well founded.
pub open spec fn idx_kids(a: Seq<NodeV>, s: int, k: int, path: Seq<u8>) -> (Seq<NodeV>, Seq<u8>)
    decreases rd_of(children_of(a))[s], a[s].children.len() - k,
    when 0 <= s < a.len() && 0 <= k && down_acyclic(children_of(a))
{
    if k >= a[s].children.len() {
        (a, path)
    } else {
        let c = a[s].children[k] as int;
        if 0 <= c < a.len() {
            proof {
                assert(down_ok(children_of(a), rd_of(children_of(a))));
                assert(children_of(a)[s][k] == a[s].children[k]);
            }
            let res = idx_spec(a, c, path);
            if res.1.len() > 0 && res.0.len() == a.len() && children_of(res.0) == children_of(a) {
                idx_kids(res.0, s, k + 1, res.1.update(res.1.len() - 1, bump(res.1.last())))
            } else {
                res
            }
        } else {
            (a, path)
        }
    }
}

impl Node {
    /// Assign every node of the subtree under `s` its deterministic
    /// path-hash identifier, in pre-order, writing into the `"id"` attribute
    /// only where that attribute is not already present. The walk descends
    /// the child relation, so it asks for an arena in which that relation is
    /// acyclic; on any such arena it ends.
    pub fn idx(a: &mut Arena, s: usize, path: &mut Vec<u8>)
        requires
            s < old(a)@.len(),
            in_range(old(a)@),
            down_acyclic(children_of(old(a)@)),
            attrs_wf(old(a)),
        ensures
            (final(a)@, final(path)@) == idx_spec(old(a)@, s as int, old(path)@),
            final(a)@.len() == old(a)@.len(),
            forall|i: int|
                0 <= i < old(a)@.len() ==> (#[trigger] final(a)@[i]).children == old(
                    a,
                )@[i].children && final(a)@[i].pre == old(a)@[i].pre && final(a)@[i].tag == old(
                    a,
                )@[i].tag,
            attrs_wf(final(a)),
            in_range(final(a)@),
            down_acyclic(children_of(final(a)@)),
            final(path)@.len() > old(path)@.len(),
        decreases rd_of(children_of(a@))[s as int],
    {
        let ghost a0 = a@;
        let ghost path0 = path@;
        let h = hash(a.nodes[s].tag.as_slice(), path.as_slice());
        let mut idk: Vec<char> = Vec::new();
        idk.push('i');
        idk.push('d');
        proof {
            assert(idk@ =~= id_key());
        }
        let present = match a.nodes[s].attrs.get(idk.as_slice()) {
            Some(_) => true,
            None => false,
        };
        if !present {
            let node_ref = &mut a.nodes[s];
            node_ref.attrs.insert(idk, h);
        }
        proof {
            assert(a@ =~= a0.update(
                s as int,
                NodeV { attrs: node_idx_attrs(a0[s as int], path0), ..a0[s as int] },
            ));
            assert(children_of(a@) =~= children_of(a0));
            assert(pre_of(a@) =~= pre_of(a0));
        }
        path.push(0);
        let n = a.nodes[s].children.len();
        let mut k: usize = 0;
        while k < n
            invariant
                0 <= k <= n,
                s < a@.len(),
                a0 == old(a)@,
                path0 == old(path)@,
                a@.len() == a0.len(),
                n == a@[s as int].children.len(),
                forall|i: int|
                    0 <= i < a0.len() ==> (#[trigger] a@[i]).children == a0[i].children && a@[i].pre
                        == a0[i].pre && a@[i].tag == a0[i].tag,
                attrs_wf(a),
                in_range(a@),
                down_acyclic(children_of(a@)),
                children_of(a@) == children_of(a0),
                path@.len() > path0.len(),
                idx_spec(a0, s as int, path0) == idx_kids(a@, s as int, k as int, path@),
            decreases n - k,
        {
            let c = a.nodes[s].children[k];
            let ghost a_before = a@;
            let ghost path_before = path@;
            proof {
                assert(down_ok(children_of(a@), rd_of(children_of(a@))));
                assert(children_of(a@)[s as int][k as int] == c);
                assert(rd_of(children_of(a@))[c as int] < rd_of(children_of(a@))[s as int]);
                assert(rd_of(children_of(a@))[s as int] == rd_of(children_of(a0))[s as int]);
            }
            Node::idx(a, c, path);
            let ghost p2 = path@;
            proof {
                assert(children_of(a@) =~= children_of(a_before));
                assert(pre_of(a@) =~= pre_of(a_before));
                assert((a@, p2) == idx_spec(a_before, c as int, path_before));
                assert(p2 == idx_spec(a_before, c as int, path_before).1);
                assert(p2.len() > 0);
            }
            let x = match path.pop() {
                Some(v) => v,
                None => 0,
            };
            proof {
                assert(x == p2.last());
                assert(path@ == p2.drop_last());
            }
            path.push(x.wrapping_add(1));
            proof {
                assert(x.wrapping_add(1) == bump(p2.last()));
                assert(path@ =~= p2.update(p2.len() - 1, bump(p2.last())));
            }
            k = k + 1;
        }
        proof {
            assert(pre_of(a@) =~= pre_of(a0));
        }
    }

    /// Resolve the path from the node `s` up to the root, as the sibling
    /// indices found on the way: each step asks the parent for the first
    /// child equal to `s` and climbs. A root, or a parent without a matching
    /// child, ends the climb. The climb follows parent links, so it asks for
    /// an arena whose parent links all resolve and form no cycle.
    pub fn locate(a: &Arena, s: usize, path: Vec<usize>) -> (r: Vec<usize>)
        requires
            s < a@.len(),
            in_range(a@),
            up_acyclic(pre_of(a@)),
        ensures
            r@ == locate_spec(a@, s as int, path@),
        decreases ru_of(pre_of(a@))[s as int],
    {
        let pre = a.nodes[s].pre;
        match pre {
            None => path,
            Some(p) => {
                proof {
                    assert(up_ok(pre_of(a@), ru_of(pre_of(a@))));
                    assert(pre_of(a@)[s as int] == Some(p));
                    assert(ru_of(pre_of(a@))[p as int] < ru_of(pre_of(a@))[s as int]);
                }
                let ghost ks = a@[p as int].children;
                let n = a.nodes[p].children.len();
                let mut k: usize = 0;
                while k < n
                    invariant
                        0 <= k <= n,
                        s < a@.len(),
                        p < a@.len(),
                        in_range(a@),
                        up_acyclic(pre_of(a@)),
                        a@[s as int].pre == Some(p),
                        ru_of(pre_of(a@))[p as int] < ru_of(pre_of(a@))[s as int],
                        n == ks.len(),
                        ks == a@[p as int].children,
                        ks == a.nodes@[p as int]@.children,
                        forall|j: int| 0 <= j < k ==> ks[j] != s,
                    decreases n - k,
                {
                    if a.nodes[p].children[k] == s {
                        proof {
                            lemma_first_idx_from(ks, s, 0);
                            assert(first_idx(ks, s) == k);
                        }
                        let mut path2 = path;
                        path2.push(k);
                        return Node::locate(a, p, path2);
                    }
                    k = k + 1;
                }
                proof {
                    lemma_first_idx_from(ks, s, 0);
                    assert(first_idx(ks, s) == -1);
                }
                path
            },
        }
    }
}

/// The root path of a node: the sibling indices found climbing from the node
/// to the root, in that order.
pub open spec fn locate_spec(a: Seq<NodeV>, s: int, path: Seq<usize>) -> Seq<usize>
    decreases ru_of(pre_of(a))[s],
    when 0 <= s < a.len() && up_acyclic(pre_of(a)) && in_range(a)
{
    match a[s].pre {
        None => path,
        Some(p) => {
            proof {
                assert(up_ok(pre_of(a), ru_of(pre_of(a))));
                assert(pre_of(a)[s] == a[s].pre);
            }
            let f = first_idx(a[p as int].children, s as usize);
            if f >= 0 {
                locate_spec(a, p as int, path.push(f as usize))
            } else {
                path
            }
        },
    }
}

} // verus!

verus! {

/// Every node of the subtree under `s` already carries an identifier.
pub open spec fn all_ids(a: Seq<NodeV>, s: int) -> bool
    decreases rd_of(children_of(a))[s], a[s].children.len() + 1,
    when 0 <= s < a.len() && down_acyclic(children_of(a))
{
    a[s].attrs.contains_key(id_key()) && all_ids_kids(a, s, 0)
}

/// Every node of the subtrees under the children of `s` from position `k` on
/// already carries an identifier.
pub open spec fn all_ids_kids(a: Seq<NodeV>, s: int, k: int) -> bool
    decreases rd_of(children_of(a))[s], a[s].children.len() - k,
    when 0 <= s < a.len() && 0 <= k && down_acyclic(children_of(a))
{
    if k >= a[s].children.len() {
        true
    } else {
        let c = a[s].children[k] as int;
        proof {
            assert(down_ok(children_of(a), rd_of(children_of(a))));
            assert(children_of(a)[s][k] == a[s].children[k]);
        }
        (if 0 <= c < a.len() {
            all_ids(a, c)
        } else {
            true
        }) && all_ids_kids(a, s, k + 1)
    }
}

/// The walk only ever appends to the path it was handed.
pub proof fn lemma_idx_path_grows(a: Seq<NodeV>, s: int, path: Seq<u8>)
    requires
        0 <= s < a.len(),
        down_acyclic(children_of(a)),
    ensures
        idx_spec(a, s, path).1.len() > path.len(),
    decreases rd_of(children_of(a))[s], a[s].children.len() + 1,
{
    let a1 = a.update(s, NodeV { attrs: node_idx_attrs(a[s], path), ..a[s] });
    assert(children_of(a1) =~= children_of(a));
    lemma_idx_kids_path_grows(a1, s, 0, path.push(0u8));
}

/// The tail of the walk only ever appends to the path it was handed.
pub proof fn lemma_idx_kids_path_grows(a: Seq<NodeV>, s: int, k: int, path: Seq<u8>)
    requires
        0 <= s < a.len(),
        0 <= k,
        down_acyclic(children_of(a)),
    ensures
        idx_kids(a, s, k, path).1.len() >= path.len(),
    decreases rd_of(children_of(a))[s], a[s].children.len() - k,
{
    if k >= a[s].children.len() {
    } else {
        let c = a[s].children[k] as int;
        assert(down_ok(children_of(a), rd_of(children_of(a))));
        assert(children_of(a)[s][k] == a[s].children[k]);
        if 0 <= c < a.len() {
            lemma_idx_path_grows(a, c, path);
            let res = idx_spec(a, c, path);
            if res.1.len() > 0 && res.0.len() == a.len() && children_of(res.0) == children_of(a) {
                assert(rd_of(children_of(res.0)) == rd_of(children_of(a)));
                lemma_idx_kids_path_grows(
                    res.0,
                    s,
                    k + 1,
                    res.1.update(res.1.len() - 1, bump(res.1.last())),
                );
            }
        }
    }
}

/// Law: identifier assignment is idempotent. On an already-indexed subtree —
/// every node under `s` carries an identifier — a second pre-order walk
/// leaves the arena, and so every identifier, unchanged.
pub proof fn lemma_idx_idempotent(a: Seq<NodeV>, s: int, path: Seq<u8>)
    requires
        0 <= s < a.len(),
        in_range(a),
        down_acyclic(children_of(a)),
        all_ids(a, s),
    ensures
        idx_spec(a, s, path).0 == a,
    decreases rd_of(children_of(a))[s], a[s].children.len() + 1,
{
    let a1 = a.update(s, NodeV { attrs: node_idx_attrs(a[s], path), ..a[s] });
    assert(node_idx_attrs(a[s], path) == a[s].attrs);
    assert(a1 =~= a);
    lemma_idx_idem_kids(a, s, 0, path.push(0u8));
}

/// The tail of a second walk changes nothing either.
pub proof fn lemma_idx_idem_kids(a: Seq<NodeV>, s: int, k: int, path: Seq<u8>)
    requires
        0 <= s < a.len(),
        0 <= k,
        in_range(a),
        down_acyclic(children_of(a)),
        all_ids_kids(a, s, k),
    ensures
        idx_kids(a, s, k, path).0 == a,
    decreases rd_of(children_of(a))[s], a[s].children.len() - k,
{
    if k >= a[s].children.len() {
    } else {
        let c = a[s].children[k] as int;
        assert(down_ok(children_of(a), rd_of(children_of(a))));
        assert(children_of(a)[s][k] == a[s].children[k]);
        assert(0 <= c < a.len());
        lemma_idx_idempotent(a, c, path);
        lemma_idx_path_grows(a, c, path);
        let res = idx_spec(a, c, path);
        assert(res.0 == a);
        lemma_idx_idem_kids(a, s, k + 1, res.1.update(res.1.len() - 1, bump(res.1.last())));
    }
}

} // verus!

verus! {

/// What one walk does to a node's attributes: it leaves them alone, or, when
/// no identifier was present, adds exactly one.
pub open spec fn gains_id_only(before: Map<Seq<char>, Seq<char>>, after: Map<Seq<char>, Seq<char>>) -> bool {
    after == before || (!before.contains_key(id_key()) && exists|v: Seq<char>|
        after == before.insert(id_key(), v))
}

/// `gains_id_only` steps compose.
pub proof fn lemma_gains_id_trans(
    m0: Map<Seq<char>, Seq<char>>,
    m1: Map<Seq<char>, Seq<char>>,
    m2: Map<Seq<char>, Seq<char>>,
)
    requires
        gains_id_only(m0, m1),
        gains_id_only(m1, m2),
    ensures
        gains_id_only(m0, m2),
{
    if m1 != m0 && m2 != m1 {
        let v = choose|v: Seq<char>| m1 == m0.insert(id_key(), v);
        assert(m1.contains_key(id_key()));
        assert(false);
    }
}

/// The frame of one walk: the arena keeps its length, every node keeps its
/// children, parent link and tag, attributes at most gain an identifier, and
/// the walk's root ends up carrying one.
pub proof fn lemma_idx_frame(a: Seq<NodeV>, s: int, path: Seq<u8>)
    requires
        0 <= s < a.len(),
        down_acyclic(children_of(a)),
    ensures
        ({
            let r = idx_spec(a, s, path).0;
            &&& r.len() == a.len()
            &&& forall|i: int|
                0 <= i < a.len() ==> (#[trigger] r[i]).children == a[i].children && r[i].pre
                    == a[i].pre && r[i].tag == a[i].tag
            &&& forall|i: int| 0 <= i < a.len() ==> gains_id_only(a[i].attrs, (#[trigger] r[i]).attrs)
            &&& r[s].attrs.contains_key(id_key())
        }),
    decreases rd_of(children_of(a))[s], a[s].children.len() + 1,
{
    let a1 = a.update(s, NodeV { attrs: node_idx_attrs(a[s], path), ..a[s] });
    assert(children_of(a1) =~= children_of(a));
    assert(gains_id_only(a[s].attrs, a1[s].attrs));
    lemma_idx_kids_frame(a1, s, 0, path.push(0u8));
    let r = idx_spec(a, s, path).0;
    assert forall|i: int| 0 <= i < a.len() implies gains_id_only(
        a[i].attrs,
        (#[trigger] r[i]).attrs,
    ) by {
        lemma_gains_id_trans(a[i].attrs, a1[i].attrs, r[i].attrs);
    }
    assert(a1[s].attrs.contains_key(id_key()));
    assert(gains_id_only(a1[s].attrs, r[s].attrs));
}

/// The frame of the tail of a walk.
pub proof fn lemma_idx_kids_frame(a: Seq<NodeV>, s: int, k: int, path: Seq<u8>)
    requires
        0 <= s < a.len(),
        0 <= k,
        down_acyclic(children_of(a)),
    ensures
        ({
            let r = idx_kids(a, s, k, path).0;
            &&& r.len() == a.len()
            &&& forall|i: int|
                0 <= i < a.len() ==> (#[trigger] r[i]).children == a[i].children && r[i].pre
                    == a[i].pre && r[i].tag == a[i].tag
            &&& forall|i: int| 0 <= i < a.len() ==> gains_id_only(a[i].attrs, (#[trigger] r[i]).attrs)
        }),
    decreases rd_of(children_of(a))[s], a[s].children.len() - k,
{
    if k >= a[s].children.len() {
    } else {
        let c = a[s].children[k] as int;
        assert(down_ok(children_of(a), rd_of(children_of(a))));
        assert(children_of(a)[s][k] == a[s].children[k]);
        if 0 <= c < a.len() {
            lemma_idx_frame(a, c, path);
            lemma_idx_path_grows(a, c, path);
            let res = idx_spec(a, c, path);
            assert(children_of(res.0) =~= children_of(a));
            let r = idx_kids(a, s, k, path).0;
            lemma_idx_kids_frame(res.0, s, k + 1, res.1.update(res.1.len() - 1, bump(res.1.last())));
            assert forall|i: int| 0 <= i < a.len() implies gains_id_only(
                a[i].attrs,
                (#[trigger] r[i]).attrs,
            ) by {
                lemma_gains_id_trans(a[i].attrs, res.0[i].attrs, r[i].attrs);
            }
        }
    }
}

} // verus!

verus! {

/// Being fully indexed survives a step that only ever adds identifiers and
/// keeps the tree's structure.
pub proof fn lemma_all_ids_mono(aa: Seq<NodeV>, bb: Seq<NodeV>, c: int)
    requires
        0 <= c < aa.len(),
        bb.len() == aa.len(),
        down_acyclic(children_of(aa)),
        forall|i: int| 0 <= i < aa.len() ==> (#[trigger] bb[i]).children == aa[i].children,
        forall|i: int|
            0 <= i < aa.len() && (#[trigger] aa[i]).attrs.contains_key(id_key())
                ==> bb[i].attrs.contains_key(id_key()),
        all_ids(aa, c),
    ensures
        all_ids(bb, c),
    decreases rd_of(children_of(aa))[c], aa[c].children.len() + 1,
{
    assert(children_of(bb) =~= children_of(aa));
    lemma_all_ids_kids_mono(aa, bb, c, 0);
}

/// The tail form of [`lemma_all_ids_mono`].
pub proof fn lemma_all_ids_kids_mono(aa: Seq<NodeV>, bb: Seq<NodeV>, c: int, k: int)
    requires
        0 <= c < aa.len(),
        0 <= k,
        bb.len() == aa.len(),
        down_acyclic(children_of(aa)),
        forall|i: int| 0 <= i < aa.len() ==> (#[trigger] bb[i]).children == aa[i].children,
        forall|i: int|
            0 <= i < aa.len() && (#[trigger] aa[i]).attrs.contains_key(id_key())
                ==> bb[i].attrs.contains_key(id_key()),
        all_ids_kids(aa, c, k),
    ensures
        all_ids_kids(bb, c, k),
    decreases rd_of(children_of(aa))[c], aa[c].children.len() - k,
{
    assert(children_of(bb) =~= children_of(aa));
    if k >= aa[c].children.len() {
    } else {
        let d = aa[c].children[k] as int;
        assert(down_ok(children_of(aa), rd_of(children_of(aa))));
        assert(children_of(aa)[c][k] == aa[c].children[k]);
        if 0 <= d < aa.len() {
            lemma_all_ids_mono(aa, bb, d);
        }
        lemma_all_ids_kids_mono(aa, bb, c, k + 1);
    }
}

/// Law: one pre-order walk indexes the whole subtree — afterwards every node
/// under the walk's root carries an identifier, so a second walk is the
/// identity on the arena (see [`lemma_idx_idempotent`]).
pub proof fn lemma_idx_indexes(a: Seq<NodeV>, s: int, path: Seq<u8>)
    requires
        0 <= s < a.len(),
        in_range(a),
        down_acyclic(children_of(a)),
    ensures
        all_ids(idx_spec(a, s, path).0, s),
    decreases rd_of(children_of(a))[s], a[s].children.len() + 1,
{
    let a1 = a.update(s, NodeV { attrs: node_idx_attrs(a[s], path), ..a[s] });
    assert(children_of(a1) =~= children_of(a));
    assert(in_range(a1));
    let r = idx_spec(a, s, path).0;
    assert(r == idx_kids(a1, s, 0, path.push(0u8)).0);
    lemma_idx_kids_frame(a1, s, 0, path.push(0u8));
    lemma_idx_kids_indexes(a1, s, 0, path.push(0u8));
    assert(children_of(r) =~= children_of(a));
    assert(a1[s].attrs.contains_key(id_key()));
    assert(gains_id_only(a1[s as int].attrs, r[s as int].attrs));
    assert(r[s].attrs.contains_key(id_key()));
    assert(all_ids_kids(r, s, 0));
}

/// The tail of one walk indexes the subtrees of the remaining children and
/// keeps the root's identifier.
pub proof fn lemma_idx_kids_indexes(a: Seq<NodeV>, s: int, k: int, path: Seq<u8>)
    requires
        0 <= s < a.len(),
        0 <= k,
        in_range(a),
        down_acyclic(children_of(a)),
    ensures
        all_ids_kids(idx_kids(a, s, k, path).0, s, k),
    decreases rd_of(children_of(a))[s], a[s].children.len() - k,
{
    let r = idx_kids(a, s, k, path).0;
    if k >= a[s].children.len() {
        assert(children_of(r) =~= children_of(a));
    } else {
        let c = a[s].children[k] as int;
        assert(down_ok(children_of(a), rd_of(children_of(a))));
        assert(children_of(a)[s][k] == a[s].children[k]);
        assert(0 <= c < a.len());
        lemma_idx_frame(a, c, path);
        lemma_idx_indexes(a, c, path);
        lemma_idx_path_grows(a, c, path);
        let res = idx_spec(a, c, path);
        assert(children_of(res.0) =~= children_of(a));
        assert(in_range(res.0));
        let p2 = res.1.update(res.1.len() - 1, bump(res.1.last()));
        lemma_idx_kids_frame(res.0, s, k + 1, p2);
        lemma_idx_kids_indexes(res.0, s, k + 1, p2);
        assert(r == idx_kids(res.0, s, k + 1, p2).0);
        // the child's subtree stays fully indexed through the later steps
        assert forall|i: int|
            0 <= i < res.0.len() && (#[trigger] res.0[i]).attrs.contains_key(id_key())
                implies r[i].attrs.contains_key(id_key()) by {
            assert(gains_id_only(res.0[i].attrs, r[i].attrs));
        }
        lemma_all_ids_mono(res.0, r, c);
        assert(all_ids(r, c));
        assert(all_ids_kids(r, s, k + 1));
        assert(r.len() == a.len());
        assert(children_of(r) =~= children_of(a));
        assert(r[s as int].children == a[s].children);
        assert(all_ids_kids(r, s, k));
    }
}

} // verus!
