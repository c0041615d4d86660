//! The parse-time tree value and its mathematical model: a tag, an unordered
//! attribute mapping with unique keys, and an ordered list of children.

use crate::text::eq_chars;
use vstd::prelude::*;

verus! {

broadcast use vstd::std_specs::vec::axiom_vec_decreases_to_view, vstd::seq::axiom_seq_index_decreases;

/// Mathematical model of a [`Tree`]: the tag as a character sequence, the
/// attributes as a map from name to value, and the children in order.
pub struct TreeV {
    pub tag: Seq<char>,
    pub attrs: Map<Seq<char>, Seq<char>>,
    pub children: Seq<TreeV>,
}

/// The tag that marks a plain-text leaf.
pub open spec fn plain_tag() -> Seq<char> {
    seq!['p', 'l', 'a', 'i', 'n']
}

/// The attribute name under which a plain-text leaf stores its text.
pub open spec fn text_key() -> Seq<char> {
    seq!['t', 'e', 'x', 't']
}

/// The model of a plain-text leaf holding `text`.
pub open spec fn plain_of(text: Seq<char>) -> TreeV {
    TreeV {
        tag: plain_tag(),
        attrs: Map::empty().insert(text_key(), text),
        children: Seq::empty(),
    }
}

/// The model of the default empty tree: empty tag, no attributes, no
/// children.
pub open spec fn empty_tree() -> TreeV {
    TreeV { tag: Seq::empty(), attrs: Map::empty(), children: Seq::empty() }
}

/// The map described by a sequence of key/value pairs, later pairs winning.
pub open spec fn pairs_map(s: Seq<(Vec<char>, Vec<char>)>) -> Map<Seq<char>, Seq<char>>
    decreases s.len(),
{
    if s.len() == 0 {
        Map::empty()
    } else {
        pairs_map(s.drop_last()).insert(s.last().0@, s.last().1@)
    }
}

/// No two pairs of the sequence share a key.
pub open spec fn keys_distinct(s: Seq<(Vec<char>, Vec<char>)>) -> bool {
    forall|i: int, j: int| 0 <= i < j < s.len() ==> s[i].0@ != s[j].0@
}

/// A key is in the map exactly when some pair holds it.
pub proof fn lemma_pairs_map_contains(s: Seq<(Vec<char>, Vec<char>)>, k: Seq<char>)
    ensures
        pairs_map(s).contains_key(k) <==> exists|i: int| 0 <= i < s.len() && s[i].0@ == k,
    decreases s.len(),
{
    if s.len() > 0 {
        lemma_pairs_map_contains(s.drop_last(), k);
        if s.last().0@ == k {
            assert(s[s.len() - 1].0@ == k);
        } else if exists|i: int| 0 <= i < s.len() && s[i].0@ == k {
            let i = choose|i: int| 0 <= i < s.len() && s[i].0@ == k;
            assert(s.drop_last()[i] == s[i]);
        } else if exists|i: int| 0 <= i < s.len() - 1 && s.drop_last()[i].0@ == k {
            let i = choose|i: int| 0 <= i < s.len() - 1 && s.drop_last()[i].0@ == k;
            assert(s[i].0@ == k);
        }
    }
}

/// With distinct keys, the pair holding a key gives the map's value at it.
pub proof fn lemma_pairs_map_value(s: Seq<(Vec<char>, Vec<char>)>, i: int)
    requires
        keys_distinct(s),
        0 <= i < s.len(),
    ensures
        pairs_map(s).contains_key(s[i].0@),
        pairs_map(s)[s[i].0@] == s[i].1@,
    decreases s.len(),
{
    lemma_pairs_map_contains(s, s[i].0@);
    if i < s.len() - 1 {
        assert(s.drop_last()[i] == s[i]);
        lemma_pairs_map_value(s.drop_last(), i);
        assert(s[i].0@ != s.last().0@);
    }
}

/// The map's domain is finite, and with distinct keys it is as large as the
/// pair sequence.
pub proof fn lemma_pairs_map_dom(s: Seq<(Vec<char>, Vec<char>)>)
    ensures
        pairs_map(s).dom().finite(),
        keys_distinct(s) ==> pairs_map(s).dom().len() == s.len(),
    decreases s.len(),
{
    if s.len() > 0 {
        lemma_pairs_map_dom(s.drop_last());
        if keys_distinct(s) {
            lemma_pairs_map_contains(s.drop_last(), s.last().0@);
            assert(forall|i: int|
                0 <= i < s.len() - 1 ==> (#[trigger] s.drop_last()[i]).0@ == s[i].0@
                    && s[i].0@ != s.last().0@);
            assert(!pairs_map(s.drop_last()).contains_key(s.last().0@));
        }
    }
}

/// An attribute mapping, stored as key/value pairs with unique keys and
/// viewed as a `Map` from name to value.
#[derive(Debug, Clone, PartialEq, Eq)]
pub struct AttrMap {
    pub pairs: Vec<(Vec<char>, Vec<char>)>,
}

impl View for AttrMap {
    type V = Map<Seq<char>, Seq<char>>;

    open spec fn view(&self) -> Map<Seq<char>, Seq<char>> {
        pairs_map(self.pairs@)
    }
}

impl AttrMap {
    /// No two stored pairs share a key.
    pub open spec fn wf(&self) -> bool {
        keys_distinct(self.pairs@)
    }

    /// An empty attribute mapping.
    pub fn new() -> (r: AttrMap)
        ensures
            r@ == Map::<Seq<char>, Seq<char>>::empty(),
            r.wf(),
            r.pairs@.len() == 0,
    {
        AttrMap { pairs: Vec::new() }
    }

    /// How many attributes are stored.
    pub fn len(&self) -> (n: usize)
        ensures
            n == self.pairs@.len(),
            self.wf() ==> n == self@.dom().len(),
    {
        proof {
            lemma_pairs_map_dom(self.pairs@);
        }
        self.pairs.len()
    }

    /// Look an attribute up by name.
    pub fn get(&self, k: &[char]) -> (r: Option<&Vec<char>>)
        requires
            self.wf(),
        ensures
            match r {
                Some(v) => self@.contains_key(k@) && v@ == self@[k@],
                None => !self@.contains_key(k@),
            },
    {
        let mut i: usize = 0;
        while i < self.pairs.len()
            invariant
                0 <= i <= self.pairs@.len(),
                self.wf(),
                forall|j: int| 0 <= j < i ==> (#[trigger] self.pairs@[j]).0@ != k@,
            decreases self.pairs@.len() - i,
        {
            if eq_chars(self.pairs[i].0.as_slice(), k) {
                proof {
                    lemma_pairs_map_value(self.pairs@, i as int);
                }
                return Some(&self.pairs[i].1);
            }
            i = i + 1;
        }
        proof {
            lemma_pairs_map_contains(self.pairs@, k@);
        }
        None
    }

    /// Insert an attribute, replacing any previous value under the same name.
    pub fn insert(&mut self, k: Vec<char>, v: Vec<char>)
        requires
            old(self).wf(),
        ensures
            final(self).wf(),
            final(self)@ == old(self)@.insert(k@, v@),
    {
        let ghost s0 = self.pairs@;
        let mut i: usize = 0;
        while i < self.pairs.len()
            invariant
                0 <= i <= self.pairs@.len(),
                self.pairs@ == s0,
                s0 == old(self).pairs@,
                keys_distinct(s0),
                forall|j: int| 0 <= j < i ==> (#[trigger] s0[j]).0@ != k@,
            decreases self.pairs@.len() - i,
        {
            if eq_chars(self.pairs[i].0.as_slice(), k.as_slice()) {
                self.pairs.remove(i);
                self.pairs.push((k, v));
                proof {
                    lemma_insert_replaces(s0, i as int, self.pairs@.last());
                    assert(self.pairs@ =~= s0.remove(i as int).push(self.pairs@.last()));
                    assert(pairs_map(self.pairs@) == pairs_map(s0).insert(k@, v@));
                }
                return ;
            }
            i = i + 1;
        }
        self.pairs.push((k, v));
        proof {
            assert(self.pairs@.drop_last() =~= s0);
            assert forall|a: int, b: int|
                0 <= a < b < self.pairs@.len() implies (#[trigger] self.pairs@[a]).0@
                != (#[trigger] self.pairs@[b]).0@ by {
                if b < self.pairs@.len() - 1 {
                    assert(s0[a].0@ != s0[b].0@);
                } else {
                    assert(s0[a].0@ != k@);
                }
            }
        }
    }
}

/// Removing the one pair that holds a key and appending a new pair under the
/// same key acts as a map insertion.
proof fn lemma_insert_replaces(s: Seq<(Vec<char>, Vec<char>)>, i: int, p: (Vec<char>, Vec<char>))
    requires
        keys_distinct(s),
        0 <= i < s.len(),
        s[i].0@ == p.0@,
    ensures
        keys_distinct(s.remove(i).push(p)),
        pairs_map(s.remove(i).push(p)) == pairs_map(s).insert(p.0@, p.1@),
{
    let s1 = s.remove(i).push(p);
    assert(forall|j: int|
        0 <= j < s.len() - 1 ==> #[trigger] s.remove(i)[j] == (if j < i {
            s[j]
        } else {
            s[j + 1]
        }));
    assert(keys_distinct(s1));
    assert(s1.drop_last() =~= s.remove(i));
    let m1 = pairs_map(s1);
    let m0 = pairs_map(s).insert(p.0@, p.1@);
    assert forall|k: Seq<char>| m1.contains_key(k) == m0.contains_key(k) by {
        lemma_pairs_map_contains(s1, k);
        lemma_pairs_map_contains(s, k);
        lemma_pairs_map_contains(s.remove(i), k);
        if k == p.0@ {
            assert(s1[s1.len() - 1].0@ == k);
        } else {
            if exists|j: int| 0 <= j < s.len() && s[j].0@ == k {
                let j = choose|j: int| 0 <= j < s.len() && s[j].0@ == k;
                assert(j != i);
                if j < i {
                    assert(s1[j].0@ == k);
                } else {
                    assert(s1[j - 1].0@ == k);
                }
            }
            if exists|j: int| 0 <= j < s1.len() && s1[j].0@ == k {
                let j = choose|j: int| 0 <= j < s1.len() && s1[j].0@ == k;
                assert(j < s1.len() - 1);
                if j < i {
                    assert(s[j].0@ == k);
                } else {
                    assert(s[j + 1].0@ == k);
                }
            }
        }
    }
    assert forall|k: Seq<char>| m1.contains_key(k) && m0.contains_key(k) implies m1[k] == m0[k] by {
        if k == p.0@ {
            lemma_pairs_map_value(s1, s1.len() - 1);
        } else {
            lemma_pairs_map_contains(s, k);
            let j = choose|j: int| 0 <= j < s.len() && s[j].0@ == k;
            lemma_pairs_map_value(s, j);
            assert(j != i);
            if j < i {
                assert(s1[j] == s[j]);
                lemma_pairs_map_value(s1, j);
            } else {
                assert(s1[j - 1] == s[j]);
                lemma_pairs_map_value(s1, j - 1);
            }
        }
    }
    assert(m1 =~= m0);
}

/// The parse-time tree: a tag, an attribute mapping, and exclusively-owned
/// children in order.
#[derive(Debug, PartialEq, Eq)]
pub struct Tree {
    pub attrs: AttrMap,
    pub tag: Vec<char>,
    pub children: Vec<Tree>,
}

/// The model of a [`Tree`].
pub open spec fn tree_view(t: Tree) -> TreeV
    decreases t,
{
    TreeV { tag: t.tag@, attrs: t.attrs@, children: trees_view(t.children@) }
}

/// The models of a sequence of trees, in order.
pub open spec fn trees_view(s: Seq<Tree>) -> Seq<TreeV>
    decreases s,
{
    if s.len() == 0 {
        Seq::empty()
    } else {
        trees_view(s.drop_last()).push(tree_view(s.last()))
    }
}

impl View for Tree {
    type V = TreeV;

    open spec fn view(&self) -> TreeV {
        tree_view(*self)
    }
}

impl Default for Tree {
    /// The empty tree: empty tag, no attributes, no children.
    fn default() -> (t: Tree)
        ensures
            t@ == empty_tree(),
            t.attrs.wf(),
    {
        let t = Tree { attrs: AttrMap::new(), tag: Vec::new(), children: Vec::new() };
        proof {
            assert(t@.children =~= Seq::<TreeV>::empty());
            assert(t@ =~= empty_tree());
        }
        t
    }
}

/// Continuation signal handed from a nested parse back to its caller: whether
/// a matching close tag was consumed, the position reached in the scanned
/// text, and the tag name the scan was associated with.
#[derive(Debug, Clone, PartialEq, Eq)]
pub struct Extra {
    pub end: bool,
    pub pos: usize,
    pub tag: Vec<char>,
}

/// Mathematical model of an [`Extra`].
pub struct ExtraV {
    pub end: bool,
    pub pos: int,
    pub tag: Seq<char>,
}

impl View for Extra {
    type V = ExtraV;

    open spec fn view(&self) -> ExtraV {
        ExtraV { end: self.end, pos: self.pos as int, tag: self.tag@ }
    }
}

/// A fatal parse failure.
#[derive(Debug, Clone, PartialEq, Eq)]
pub enum ParseError {
    /// A character stood in a structurally invalid place while tokenizing a
    /// tag; carries the partial tag text and the offending character, or no
    /// character when the input ended inside the tag.
    MalformedTag { partial: Vec<char>, found: Option<char> },
    /// A close tag did not match the tag currently open; carries the open
    /// tag's name, the name found, and the scanned fragment.
    MismatchedCloseTag { expected: Vec<char>, found: Vec<char>, fragment: Vec<char> },
    /// A `/` stood outside any legitimate close-tag position; carries the
    /// scanned fragment.
    UnexpectedCloseMarker { fragment: Vec<char> },
}

/// Mathematical model of a [`ParseError`].
pub enum ErrorV {
    Malformed { partial: Seq<char>, found: Option<char> },
    Mismatched { expected: Seq<char>, found: Seq<char>, fragment: Seq<char> },
    UnexpectedClose { fragment: Seq<char> },
}

impl View for ParseError {
    type V = ErrorV;

    open spec fn view(&self) -> ErrorV {
        match self {
            ParseError::MalformedTag { partial, found } => ErrorV::Malformed {
                partial: partial@,
                found: *found,
            },
            ParseError::MismatchedCloseTag { expected, found, fragment } => ErrorV::Mismatched {
                expected: expected@,
                found: found@,
                fragment: fragment@,
            },
            ParseError::UnexpectedCloseMarker { fragment } => ErrorV::UnexpectedClose {
                fragment: fragment@,
            },
        }
    }
}

} // verus!
