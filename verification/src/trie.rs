//! The Patricia trie: node representation, prefix-splitting insertion and
//! prefix-following lookup.

use std::rc::Rc;
use vstd::prelude::*;

verus! {

/// A persistent Patricia trie from string keys to values of type `T`.
///
/// `Tip` is the empty trie. A `Node` consumes the character fragment `key`
/// on the path from the root; `value` is present exactly when the
/// concatenation of fragments from the root to this node was bound as a key;
/// `children` associates the first character of each child's fragment with
/// that child. Subtrees are shared through `Rc`: `bind` allocates new nodes
/// only along the path it touches.
#[derive(Clone, Debug)]
pub enum PatriciaTrie<T> {
    Tip,
    Node { key: String, value: Option<Rc<T>>, children: Vec<(char, Rc<PatriciaTrie<T>>)> },
}

impl<T> PatriciaTrie<T> {
    /// Whether this trie is a `Node` (not the empty trie).
    pub open spec fn is_node(self) -> bool {
        self matches PatriciaTrie::Node { .. }
    }

    /// The fragment consumed by this node (empty for `Tip`).
    pub open spec fn frag(self) -> Seq<char> {
        match self {
            PatriciaTrie::Tip => Seq::empty(),
            PatriciaTrie::Node { key, .. } => key@,
        }
    }

    /// The child list of this node (empty for `Tip`).
    pub open spec fn child_seq(self) -> Seq<(char, Rc<PatriciaTrie<T>>)> {
        match self {
            PatriciaTrie::Tip => Seq::empty(),
            PatriciaTrie::Node { children, .. } => children@,
        }
    }

    /// The value stored at this node, with the sharing handle stripped.
    pub open spec fn stored(self) -> Option<T> {
        match self {
            PatriciaTrie::Tip => None,
            PatriciaTrie::Node { value, .. } => match value {
                Some(rc) => Some(*rc),
                None => None,
            },
        }
    }

    /// A child entry carries a non-empty fragment starting with its index
    /// character.
    pub open spec fn child_labeled(e: (char, Rc<PatriciaTrie<T>>)) -> bool {
        &&& (*e.1).is_node()
        &&& (*e.1).frag().len() > 0
        &&& (*e.1).frag()[0] == e.0
    }

    /// Well-formedness: every child's fragment is non-empty and begins with
    /// the character it is indexed under, no two children share a first
    /// character, and the same holds recursively below.
    pub open spec fn wf(self) -> bool
        decreases self,
    {
        match self {
            PatriciaTrie::Tip => true,
            PatriciaTrie::Node { key, value, children } => {
                &&& forall|i: int|
                    0 <= i < children@.len() ==> Self::child_labeled(#[trigger] children@[i])
                &&& forall|i: int|
                    0 <= i < children@.len() ==> (*#[trigger] children@[i].1).wf()
                &&& forall|i: int, j: int|
                    0 <= i < j < children@.len() ==> children@[i].0 != children@[j].0
            },
        }
    }

    /// The child of `cs` indexed under character `c`, if one exists.
    pub open spec fn spec_child(cs: Seq<(char, Rc<PatriciaTrie<T>>)>, c: char) -> Option<
        Rc<PatriciaTrie<T>>,
    > {
        if exists|i: int| 0 <= i < cs.len() && cs[i].0 == c {
            Some(cs[choose|i: int| 0 <= i < cs.len() && cs[i].0 == c].1)
        } else {
            None
        }
    }

    /// The mathematical meaning of lookup: follow fragments down the trie
    /// and return the value bound at `k`, if any.
    pub open spec fn lookup_spec(self, k: Seq<char>) -> Option<T>
        decreases self,
    {
        match self {
            PatriciaTrie::Tip => None,
            PatriciaTrie::Node { key, value, children } => {
                if key@.len() <= k.len() && k.subrange(0, key@.len() as int) == key@ {
                    let rest = k.subrange(key@.len() as int, k.len() as int);
                    if rest.len() == 0 {
                        match value {
                            Some(rc) => Some(*rc),
                            None => None,
                        }
                    } else {
                        match Self::spec_child(children@, rest[0]) {
                            Some(ct) => (*ct).lookup_spec(rest),
                            None => None,
                        }
                    }
                } else {
                    None
                }
            },
        }
    }
}

/// Relies on `Rc::clone`: returns a second handle to the same shared
/// allocation, hence a handle to the same value.
#[verifier::external_body]
fn rc_clone<A>(rc: &Rc<A>) -> (r: Rc<A>)
    ensures
        r == *rc,
{
    Rc::clone(rc)
}

impl<T> PatriciaTrie<T> {
    /// With pairwise-distinct index characters, the child found at position
    /// `j` is the one `spec_child` selects for its character.
    proof fn lemma_spec_child_at(cs: Seq<(char, Rc<PatriciaTrie<T>>)>, j: int)
        requires
            0 <= j < cs.len(),
            forall|a: int, b: int| 0 <= a < b < cs.len() ==> cs[a].0 != cs[b].0,
        ensures
            Self::spec_child(cs, cs[j].0) == Some(cs[j].1),
    {
        let c = cs[j].0;
        assert(exists|i: int| 0 <= i < cs.len() && cs[i].0 == c);
        let i = choose|i: int| 0 <= i < cs.len() && cs[i].0 == c;
        if i < j {
            assert(cs[i].0 != cs[j].0);
        } else if j < i {
            assert(cs[j].0 != cs[i].0);
        }
    }

    /// The canonical empty trie: it binds no key at all.
    pub fn empty() -> (r: Self)
        ensures
            r == PatriciaTrie::<T>::Tip,
            r.wf(),
            r@ == Map::<Seq<char>, T>::empty(),
    {
        proof {
            assert(PatriciaTrie::<T>::Tip@ =~= Map::<Seq<char>, T>::empty());
        }
        PatriciaTrie::Tip
    }

    /// Position of the child indexed under `c`, if one exists.
    fn find_child(children: &Vec<(char, Rc<PatriciaTrie<T>>)>, c: char) -> (r: Option<usize>)
        ensures
            match r {
                Some(j) => j < children@.len() && children@[j as int].0 == c,
                None => forall|i: int| 0 <= i < children@.len() ==> children@[i].0 != c,
            },
    {
        let mut j: usize = 0;
        while j < children.len()
            invariant
                j <= children@.len(),
                forall|i: int| 0 <= i < j ==> children@[i].0 != c,
            decreases children@.len() - j,
        {
            if children[j].0 == c {
                return Some(j);
            }
            j = j + 1;
        }
        None
    }

    /// A fresh handle to a stored value, sharing the old one.
    fn clone_value(v: &Option<Rc<T>>) -> (r: Option<Rc<T>>)
        ensures
            r == *v,
    {
        match v {
            Some(rc) => Some(rc_clone(rc)),
            None => None,
        }
    }

    /// A fresh child list sharing every subtree of `cs`.
    fn clone_children(cs: &Vec<(char, Rc<PatriciaTrie<T>>)>) -> (r: Vec<
        (char, Rc<PatriciaTrie<T>>),
    >)
        ensures
            r@ == cs@,
    {
        let mut r: Vec<(char, Rc<PatriciaTrie<T>>)> = Vec::new();
        let mut j: usize = 0;
        while j < cs.len()
            invariant
                j <= cs@.len(),
                r@.len() == j,
                forall|i: int| 0 <= i < j ==> r@[i] == cs@[i],
            decreases cs@.len() - j,
        {
            let c = cs[j].0;
            let t = rc_clone(&cs[j].1);
            r.push((c, t));
            j = j + 1;
        }
        proof {
            assert(r@ =~= cs@);
        }
        r
    }

    /// A child list equal to `cs` except that the slot for `c` holds `nc`:
    /// the pair indexed under `c` is replaced if present, appended otherwise.
    /// All other subtrees are shared, not copied.
    fn replace_child(cs: &Vec<(char, Rc<PatriciaTrie<T>>)>, c: char, nc: Rc<PatriciaTrie<T>>) -> (r:
        Vec<(char, Rc<PatriciaTrie<T>>)>)
        ensures
            cs@.len() <= r@.len() <= cs@.len() + 1,
            forall|i: int|
                0 <= i < cs@.len() ==> #[trigger] r@[i] == (if cs@[i].0 == c {
                    (c, nc)
                } else {
                    cs@[i]
                }),
            r@.len() == cs@.len() + 1 ==> r@[cs@.len() as int] == (c, nc) && (forall|i: int|
                0 <= i < cs@.len() ==> cs@[i].0 != c),
            r@.len() == cs@.len() ==> exists|i: int| 0 <= i < cs@.len() && cs@[i].0 == c,
    {
        let mut r: Vec<(char, Rc<PatriciaTrie<T>>)> = Vec::new();
        let mut found = false;
        let mut j: usize = 0;
        while j < cs.len()
            invariant
                j <= cs@.len(),
                r@.len() == j,
                forall|i: int|
                    0 <= i < j ==> #[trigger] r@[i] == (if cs@[i].0 == c {
                        (c, nc)
                    } else {
                        cs@[i]
                    }),
                found <==> exists|i: int| 0 <= i < j && cs@[i].0 == c,
            decreases cs@.len() - j,
        {
            if cs[j].0 == c {
                r.push((c, rc_clone(&nc)));
                found = true;
            } else {
                let e = rc_clone(&cs[j].1);
                r.push((cs[j].0, e));
            }
            j = j + 1;
        }
        if !found {
            r.push((c, nc));
        }
        r
    }

    /// What `replace_child` does to the association of characters with
    /// subtrees, and to well-formedness of the child list.
    proof fn lemma_replaced_children(
        cs: Seq<(char, Rc<PatriciaTrie<T>>)>,
        c: char,
        nc: Rc<PatriciaTrie<T>>,
        r: Seq<(char, Rc<PatriciaTrie<T>>)>,
    )
        requires
            cs.len() <= r.len() <= cs.len() + 1,
            forall|i: int|
                0 <= i < cs.len() ==> #[trigger] r[i] == (if cs[i].0 == c {
                    (c, nc)
                } else {
                    cs[i]
                }),
            r.len() == cs.len() + 1 ==> r[cs.len() as int] == (c, nc) && (forall|i: int|
                0 <= i < cs.len() ==> cs[i].0 != c),
            r.len() == cs.len() ==> exists|i: int| 0 <= i < cs.len() && cs[i].0 == c,
            forall|a: int, b: int| 0 <= a < b < cs.len() ==> cs[a].0 != cs[b].0,
            forall|i: int| 0 <= i < cs.len() ==> Self::child_labeled(#[trigger] cs[i]),
            forall|i: int| 0 <= i < cs.len() ==> (*#[trigger] cs[i].1).wf(),
            Self::child_labeled((c, nc)),
            (*nc).wf(),
        ensures
            forall|a: int, b: int| 0 <= a < b < r.len() ==> r[a].0 != r[b].0,
            forall|i: int| 0 <= i < r.len() ==> Self::child_labeled(#[trigger] r[i]),
            forall|i: int| 0 <= i < r.len() ==> (*#[trigger] r[i].1).wf(),
            forall|c2: char|
                #[trigger] Self::spec_child(r, c2) == (if c2 == c {
                    Some(nc)
                } else {
                    Self::spec_child(cs, c2)
                }),
    {
        assert forall|a: int, b: int| 0 <= a < b < r.len() implies r[a].0 != r[b].0 by {
            if b == cs.len() && r.len() == cs.len() + 1 {
                assert(cs[a].0 != c);
            }
        }
        assert forall|c2: char|
            #[trigger] Self::spec_child(r, c2) == (if c2 == c {
                Some(nc)
            } else {
                Self::spec_child(cs, c2)
            }) by {
            if c2 == c {
                if r.len() == cs.len() {
                    let i = choose|i: int| 0 <= i < cs.len() && cs[i].0 == c;
                    assert(r[i] == (c, nc));
                    Self::lemma_spec_child_at(r, i);
                } else {
                    Self::lemma_spec_child_at(r, cs.len() as int);
                }
            } else {
                if exists|i: int| 0 <= i < cs.len() && cs[i].0 == c2 {
                    let i = choose|i: int| 0 <= i < cs.len() && cs[i].0 == c2;
                    assert(r[i] == cs[i]);
                    Self::lemma_spec_child_at(cs, i);
                    Self::lemma_spec_child_at(r, i);
                } else {
                    assert forall|i: int| 0 <= i < r.len() implies r[i].0 != c2 by {
                        if i < cs.len() {
                            assert(cs[i].0 != c2);
                        }
                    }
                    assert(Self::spec_child(r, c2) is None);
                    assert(Self::spec_child(cs, c2) is None);
                }
            }
        }
    }

    /// A node without children binds exactly the key its fragment spells.
    proof fn lemma_leaf_lookup(leaf: Self)
        requires
            leaf.is_node(),
            leaf.child_seq().len() == 0,
        ensures
            forall|k2: Seq<char>|
                #[trigger] leaf.lookup_spec(k2) == (if k2 == leaf.frag() {
                    leaf.stored()
                } else {
                    None::<T>
                }),
    {
        assert forall|k2: Seq<char>|
            #[trigger] leaf.lookup_spec(k2) == (if k2 == leaf.frag() {
                leaf.stored()
            } else {
                None::<T>
            }) by {
            let key = leaf.frag();
            if key.len() <= k2.len() && k2.subrange(0, key.len() as int) == key {
                let rest = k2.subrange(key.len() as int, k2.len() as int);
                if rest.len() == 0 {
                    assert(k2 =~= key);
                } else {
                    assert(Self::spec_child(leaf.child_seq(), rest[0]) is None);
                    assert(k2.len() > key.len());
                }
            } else {
                if k2 == key {
                    assert(k2.subrange(0, key.len() as int) =~= key);
                }
            }
        }
    }

    /// Pointwise agreement of lookups lifts to the map view: `t1` denotes
    /// `t0` with `k` bound to `v`.
    proof fn lemma_view_insert(t0: Self, t1: Self, k: Seq<char>, v: T)
        requires
            forall|k2: Seq<char>|
                #[trigger] t1.lookup_spec(k2) == (if k2 == k {
                    Some(v)
                } else {
                    t0.lookup_spec(k2)
                }),
        ensures
            t1@ == t0@.insert(k, v),
    {
        let m1 = t1@;
        let m2 = t0@.insert(k, v);
        assert forall|k2: Seq<char>| m1.dom().contains(k2) == m2.dom().contains(k2) by {
            assert(t1.lookup_spec(k2) == (if k2 == k {
                Some(v)
            } else {
                t0.lookup_spec(k2)
            }));
        }
        assert forall|k2: Seq<char>| #[trigger] m2.dom().contains(k2) implies m1[k2] == m2[k2] by {
            assert(t1.lookup_spec(k2) == (if k2 == k {
                Some(v)
            } else {
                t0.lookup_spec(k2)
            }));
        }
        assert(m1 =~= m2);
    }

    /// Looks up `k`, returning the bound value or `None` when the key is
    /// absent: when the trie is empty, when `k` diverges from the stored
    /// fragments, or when `k` is only a proper prefix of stored keys.
    pub fn lookup(&self, k: String) -> (r: Option<&T>)
        requires
            self.wf(),
        ensures
            match r {
                Some(v) => self.lookup_spec(k@) == Some(*v),
                None => self.lookup_spec(k@) is None,
            },
            match r {
                Some(v) => self@.contains_key(k@) && self@[k@] == *v,
                None => !self@.contains_key(k@),
            },
        decreases self,
    {
        match self {
            PatriciaTrie::Tip => None,
            PatriciaTrie::Node { key, value, children } => {
                let i = longest_common_prefix(k.as_str(), key.as_str());
                let keylen = key.as_str().unicode_len();
                let klen = k.as_str().unicode_len();
                if i < keylen {
                    // `key` is not a character prefix of `k`: either `k` ran
                    // out, or the two diverge at `i`.
                    proof {
                        if keylen <= klen {
                            assert(k@.subrange(0, key@.len() as int)[i as int] != key@[i as int]);
                        }
                    }
                    None
                } else if keylen == klen {
                    // `k` equals this node's fragment: the binding, if any,
                    // lives here.
                    proof {
                        assert(k@ =~= key@);
                        assert(k@.subrange(0, key@.len() as int) =~= key@);
                        assert(k@.subrange(key@.len() as int, k@.len() as int).len() == 0);
                    }
                    match value {
                        Some(rc) => Some(&**rc),
                        None => None,
                    }
                } else {
                    // `key` is a proper prefix of `k`: descend into the child
                    // indexed under the next character.
                    let rest = k.as_str().substring_char(keylen, klen).to_owned();
                    let c = first_char_unwrap(&rest);
                    proof {
                        assert(k@.subrange(0, key@.len() as int) =~= key@);
                        assert(rest@ == k@.subrange(key@.len() as int, k@.len() as int));
                    }
                    match Self::find_child(children, c) {
                        Some(j) => {
                            proof {
                                Self::lemma_spec_child_at(children@, j as int);
                            }
                            (&*children[j].1).lookup(rest)
                        },
                        None => {
                            proof {
                                assert(Self::spec_child(children@, c) is None);
                            }
                            None
                        },
                    }
                }
            },
        }
    }

    /// Binds `k` to `v`, returning a new trie; `self` is untouched and all
    /// subtrees off the inserted path are shared with it. The result denotes
    /// exactly the old map with `k` bound to `v`.
    pub fn bind(&self, k: String, v: T) -> (r: Self)
        requires
            self.wf(),
        ensures
            r.wf(),
            r.is_node(),
            forall|k2: Seq<char>|
                #[trigger] r.lookup_spec(k2) == (if k2 == k@ {
                    Some(v)
                } else {
                    self.lookup_spec(k2)
                }),
            r@ == self@.insert(k@, v),
            self.is_node() && self.frag().len() > 0 && k@.len() > 0 && self.frag()[0] == k@[0]
                ==> r.frag().len() > 0 && r.frag()[0] == k@[0],
        decreases self, 1int,
    {
        match self {
            PatriciaTrie::Tip => {
                let node = PatriciaTrie::Node {
                    key: k,
                    value: Some(Rc::new(v)),
                    children: Vec::new(),
                };
                proof {
                    Self::lemma_leaf_lookup(node);
                    Self::lemma_view_insert(*self, node, k@, v);
                }
                node
            },
            PatriciaTrie::Node { key, value, children } => {
                let i = longest_common_prefix(k.as_str(), key.as_str());
                let klen = k.as_str().unicode_len();
                let keylen = key.as_str().unicode_len();
                if i == klen && i == keylen {
                    // Exact match: replace the value, share the children.
                    let cloned = Self::clone_children(children);
                    let node = PatriciaTrie::Node { key: k, value: Some(Rc::new(v)), children: cloned };
                    proof {
                        assert(k@ =~= key@);
                        assert forall|k2: Seq<char>|
                            #[trigger] node.lookup_spec(k2) == (if k2 == k@ {
                                Some(v)
                            } else {
                                self.lookup_spec(k2)
                            }) by {
                            if key@.len() <= k2.len() && k2.subrange(0, key@.len() as int) == key@ {
                                let rest = k2.subrange(key@.len() as int, k2.len() as int);
                                if rest.len() == 0 {
                                    lemma_full_prefix(key@, k2);
                                } else {
                                    assert(k2.len() > key@.len());
                                }
                            } else {
                                if k2 == k@ {
                                    assert(k2.subrange(0, key@.len() as int) =~= key@);
                                }
                            }
                        }
                        Self::lemma_view_insert(*self, node, k@, v);
                    }
                    node
                } else if i == keylen {
                    // The node's fragment is a proper prefix of `k`: descend
                    // into (or create) the child for the next character.
                    let k1 = k.as_str().substring_char(i, klen).to_owned();
                    let c = first_char_unwrap(&k1);
                    let ghost k1v = k1@;
                    let nt = self.add_children(k1, v);
                    let ghost ntv = nt;
                    let nc = Rc::new(nt);
                    let newch = Self::replace_child(children, c, nc);
                    let node = PatriciaTrie::Node {
                        key: key.clone(),
                        value: Self::clone_value(value),
                        children: newch,
                    };
                    proof {
                        assert(Self::child_labeled((c, nc)));
                        Self::lemma_replaced_children(children@, c, nc, newch@);
                        assert(k@.subrange(0, keylen as int) =~= key@);
                        assert(k1v == k@.subrange(keylen as int, k@.len() as int));
                        lemma_cat_parts(key@, k1v, k@);
                        assert forall|k2: Seq<char>|
                            #[trigger] node.lookup_spec(k2) == (if k2 == k@ {
                                Some(v)
                            } else {
                                self.lookup_spec(k2)
                            }) by {
                            if key@.len() <= k2.len() && k2.subrange(0, key@.len() as int) == key@ {
                                let rest = k2.subrange(key@.len() as int, k2.len() as int);
                                if rest.len() == 0 {
                                    lemma_full_prefix(key@, k2);
                                    assert(k2.len() < k@.len());
                                } else {
                                    if rest == k1v {
                                        lemma_cat_parts(key@, rest, k2);
                                        assert(k2 == k@);
                                    }
                                    if k2 == k@ {
                                        assert(rest =~= k1v);
                                    }
                                    if rest[0] == c {
                                        assert(Self::spec_child(newch@, rest[0]) == Some(nc));
                                        assert((*nc).lookup_spec(rest) == ntv.lookup_spec(rest));
                                    } else {
                                        assert(Self::spec_child(newch@, rest[0])
                                            == Self::spec_child(children@, rest[0]));
                                        assert(k2 != k@);
                                    }
                                }
                            } else {
                                if k2 == k@ {
                                    assert(k2.subrange(0, key@.len() as int) =~= key@);
                                }
                            }
                        }
                        Self::lemma_view_insert(*self, node, k@, v);
                    }
                    node
                } else if i == klen {
                    // `k` is a proper prefix of the fragment: split, making
                    // the old node a child under the fragment's remainder.
                    let k1 = key.as_str().substring_char(i, keylen).to_owned();
                    let c1 = first_char_unwrap(&k1);
                    let ghost k1v = k1@;
                    let oldc = PatriciaTrie::Node {
                        key: k1,
                        value: Self::clone_value(value),
                        children: Self::clone_children(children),
                    };
                    let ghost oldcv = oldc;
                    let mut newch: Vec<(char, Rc<PatriciaTrie<T>>)> = Vec::new();
                    newch.push((c1, Rc::new(oldc)));
                    let node = PatriciaTrie::Node { key: k, value: Some(Rc::new(v)), children: newch };
                    proof {
                        assert(newch@.len() == 1);
                        assert(newch@[0].0 == c1);
                        assert((*newch@[0].1) == oldcv);
                        assert(Self::child_labeled(newch@[0]));
                        assert((*newch@[0].1).wf());
                        assert(key@.subrange(0, klen as int) =~= k@);
                        assert(k1v == key@.subrange(klen as int, key@.len() as int));
                        lemma_cat_parts(k@, k1v, key@);
                        assert forall|k2: Seq<char>|
                            #[trigger] node.lookup_spec(k2) == (if k2 == k@ {
                                Some(v)
                            } else {
                                self.lookup_spec(k2)
                            }) by {
                            Self::lemma_split_lookup(*self, k@, k1v, oldcv, k2);
                            if k@.len() <= k2.len() && k2.subrange(0, k@.len() as int) == k@ {
                                let rest = k2.subrange(k@.len() as int, k2.len() as int);
                                if rest.len() == 0 {
                                    lemma_full_prefix(k@, k2);
                                } else {
                                    if rest[0] == c1 {
                                        assert(Self::spec_child(newch@, rest[0]) == Some(
                                            newch@[0].1,
                                        )) by {
                                            Self::lemma_spec_child_at(newch@, 0);
                                        }
                                    } else {
                                        assert(Self::spec_child(newch@, rest[0]) is None);
                                        if k1v.len() <= rest.len() && rest.subrange(
                                            0,
                                            k1v.len() as int,
                                        ) == k1v {
                                            lemma_prefix_index(k1v, rest);
                                            assert(rest[0] == k1v[0]);
                                        }
                                        assert(oldcv.lookup_spec(rest) is None);
                                    }
                                    assert(k2 != k@);
                                }
                            } else {
                                if k2 == k@ {
                                    assert(k2.subrange(0, k@.len() as int) =~= k@);
                                }
                            }
                        }
                        assert(node.wf());
                        Self::lemma_view_insert(*self, node, k@, v);
                    }
                    node
                } else {
                    // Proper divergence: split at the common prefix and fan
                    // out into the old node's remainder and a fresh leaf.
                    let common = k.as_str().substring_char(0, i).to_owned();
                    let k1 = key.as_str().substring_char(i, keylen).to_owned();
                    let k2s = k.as_str().substring_char(i, klen).to_owned();
                    let c1 = first_char_unwrap(&k1);
                    let c2 = first_char_unwrap(&k2s);
                    let ghost k1v = k1@;
                    let ghost k2sv = k2s@;
                    let oldc = PatriciaTrie::Node {
                        key: k1,
                        value: Self::clone_value(value),
                        children: Self::clone_children(children),
                    };
                    let ghost oldcv = oldc;
                    let leaf = PatriciaTrie::Node {
                        key: k2s,
                        value: Some(Rc::new(v)),
                        children: Vec::new(),
                    };
                    let ghost leafv = leaf;
                    let mut newch: Vec<(char, Rc<PatriciaTrie<T>>)> = Vec::new();
                    newch.push((c1, Rc::new(oldc)));
                    newch.push((c2, Rc::new(leaf)));
                    let node = PatriciaTrie::Node { key: common, value: None, children: newch };
                    proof {
                        assert(c1 != c2);
                        assert(newch@.len() == 2);
                        assert(newch@[0].0 == c1);
                        assert(newch@[1].0 == c2);
                        assert((*newch@[0].1) == oldcv);
                        assert((*newch@[1].1) == leafv);
                        assert(Self::child_labeled(newch@[0]));
                        assert(Self::child_labeled(newch@[1]));
                        assert((*newch@[0].1).wf());
                        assert((*newch@[1].1).wf());
                        assert(common@ == k@.subrange(0, i as int));
                        assert(key@.subrange(0, i as int) =~= common@);
                        assert(k1v == key@.subrange(i as int, key@.len() as int));
                        assert(k2sv == k@.subrange(i as int, k@.len() as int));
                        lemma_cat_parts(common@, k1v, key@);
                        lemma_cat_parts(common@, k2sv, k@);
                        Self::lemma_leaf_lookup(leafv);
                        assert forall|k2: Seq<char>|
                            #[trigger] node.lookup_spec(k2) == (if k2 == k@ {
                                Some(v)
                            } else {
                                self.lookup_spec(k2)
                            }) by {
                            Self::lemma_split_lookup(*self, common@, k1v, oldcv, k2);
                            if common@.len() <= k2.len() && k2.subrange(0, common@.len() as int)
                                == common@ {
                                let rest = k2.subrange(common@.len() as int, k2.len() as int);
                                assert(self.lookup_spec(k2) == oldcv.lookup_spec(rest));
                                if rest.len() == 0 {
                                    lemma_full_prefix(common@, k2);
                                    assert(k2.len() < k@.len());
                                    assert(node.lookup_spec(k2) is None);
                                    assert(oldcv.lookup_spec(rest) is None);
                                } else {
                                    if rest[0] != c1 {
                                        if k1v.len() <= rest.len() && rest.subrange(
                                            0,
                                            k1v.len() as int,
                                        ) == k1v {
                                            lemma_prefix_index(k1v, rest);
                                            assert(rest[0] == k1v[0]);
                                        }
                                        assert(oldcv.lookup_spec(rest) is None);
                                    }
                                    if rest[0] == c2 {
                                        if rest == k2sv {
                                            lemma_cat_parts(common@, rest, k2);
                                            assert(k2 == k@);
                                        }
                                        if k2 == k@ {
                                            assert(rest =~= k2sv);
                                        }
                                        assert(Self::spec_child(newch@, rest[0]) == Some(
                                            newch@[1].1,
                                        )) by {
                                            Self::lemma_spec_child_at(newch@, 1);
                                        }
                                        assert(node.lookup_spec(k2) == leafv.lookup_spec(rest));
                                        if k2 == k@ {
                                            assert(leafv.stored() == Some(v));
                                            assert(node.lookup_spec(k2) == Some(v));
                                        } else {
                                            assert(rest != k2sv);
                                            assert(node.lookup_spec(k2) is None);
                                            assert(self.lookup_spec(k2) is None);
                                        }
                                    } else if rest[0] == c1 {
                                        assert(Self::spec_child(newch@, rest[0]) == Some(
                                            newch@[0].1,
                                        )) by {
                                            Self::lemma_spec_child_at(newch@, 0);
                                        }
                                        assert(node.lookup_spec(k2) == oldcv.lookup_spec(rest));
                                        assert(k2 != k@);
                                    } else {
                                        assert(Self::spec_child(newch@, rest[0]) is None);
                                        assert(node.lookup_spec(k2) is None);
                                        assert(k2 != k@);
                                    }
                                }
                            } else {
                                assert(self.lookup_spec(k2) is None);
                                assert(node.lookup_spec(k2) is None);
                                if k2 == k@ {
                                    assert(k2.subrange(0, common@.len() as int) =~= common@);
                                }
                            }
                        }
                        assert(node.wf());
                        Self::lemma_view_insert(*self, node, k@, v);
                    }
                    node
                }
            },
        }
    }

    /// Descends below a node whose fragment was just consumed: binds the
    /// remainder `k` into the child indexed under `k`'s first character, or
    /// makes a fresh leaf when no such child exists. Never called on the
    /// empty trie.
    fn add_children(&self, k: String, v: T) -> (r: Self)
        requires
            self.wf(),
            self.is_node(),
            k@.len() > 0,
        ensures
            r.wf(),
            r.is_node(),
            r.frag().len() > 0 && r.frag()[0] == k@[0],
            forall|k2: Seq<char>|
                #[trigger] r.lookup_spec(k2) == (if k2 == k@ {
                    Some(v)
                } else {
                    match Self::spec_child(self.child_seq(), k@[0]) {
                        Some(ct) => (*ct).lookup_spec(k2),
                        None => None::<T>,
                    }
                }),
        decreases self, 0int,
    {
        match self {
            PatriciaTrie::Tip => unreached(),
            PatriciaTrie::Node { key, value, children } => {
                let c = first_char_unwrap(&k);
                match Self::find_child(children, c) {
                    Some(j) => {
                        proof {
                            Self::lemma_spec_child_at(children@, j as int);
                        }
                        (&*children[j].1).bind(k, v)
                    },
                    None => {
                        let node = PatriciaTrie::Node {
                            key: k,
                            value: Some(Rc::new(v)),
                            children: Vec::new(),
                        };
                        proof {
                            Self::lemma_leaf_lookup(node);
                            assert(Self::spec_child(children@, node.frag()[0]) is None);
                        }
                        node
                    },
                }
            },
        }
    }

    /// Rebasing a node one fragment down: if `self`'s fragment is
    /// `stem + k1` and `oldc` is `self` with its fragment replaced by `k1`
    /// (value and children unchanged), then looking up `k2` in `self` is
    /// looking up the remainder past `stem` in `oldc`.
    proof fn lemma_split_lookup(t: Self, stem: Seq<char>, k1: Seq<char>, oldc: Self, k2: Seq<char>)
        requires
            t.is_node(),
            oldc.is_node(),
            t.frag() == stem + k1,
            oldc.frag() == k1,
            oldc.stored() == t.stored(),
            oldc.child_seq() == t.child_seq(),
        ensures
            t.lookup_spec(k2) == (if stem.len() <= k2.len() && k2.subrange(0, stem.len() as int)
                == stem {
                oldc.lookup_spec(k2.subrange(stem.len() as int, k2.len() as int))
            } else {
                None::<T>
            }),
    {
        let key = t.frag();
        if stem.len() <= k2.len() && k2.subrange(0, stem.len() as int) == stem {
            let rest = k2.subrange(stem.len() as int, k2.len() as int);
            lemma_prefix_index(stem, k2);
            if key.len() <= k2.len() && k2.subrange(0, key.len() as int) == key {
                lemma_prefix_index(key, k2);
                assert(rest.subrange(0, k1.len() as int) =~= k1) by {
                    assert forall|m: int| 0 <= m < k1.len() implies rest.subrange(
                        0,
                        k1.len() as int,
                    )[m] == k1[m] by {
                        assert(rest.subrange(0, k1.len() as int)[m] == rest[m]);
                        assert(rest[m] == k2[stem.len() + m]);
                        assert(key[stem.len() + m] == k1[m]);
                    }
                }
                assert(k2.subrange(key.len() as int, k2.len() as int) =~= rest.subrange(
                    k1.len() as int,
                    rest.len() as int,
                )) by {
                    assert forall|m: int| 0 <= m < k2.len() - key.len() implies k2.subrange(
                        key.len() as int,
                        k2.len() as int,
                    )[m] == rest.subrange(k1.len() as int, rest.len() as int)[m] by {
                        assert(k2.subrange(key.len() as int, k2.len() as int)[m] == k2[key.len()
                            + m]);
                        assert(rest.subrange(k1.len() as int, rest.len() as int)[m] == rest[k1.len()
                            + m]);
                        assert(rest[k1.len() + m] == k2[stem.len() + k1.len() + m]);
                    }
                }
            } else {
                if k1.len() <= rest.len() && rest.subrange(0, k1.len() as int) == k1 {
                    lemma_prefix_index(k1, rest);
                    assert(k2.subrange(0, key.len() as int) =~= key) by {
                        assert forall|m: int| 0 <= m < key.len() implies k2.subrange(
                            0,
                            key.len() as int,
                        )[m] == key[m] by {
                            assert(k2.subrange(0, key.len() as int)[m] == k2[m]);
                            if m >= stem.len() {
                                assert(rest[m - stem.len()] == k2[m]);
                                assert(rest[m - stem.len()] == k1[m - stem.len()]);
                                assert(key[m] == k1[m - stem.len()]);
                            }
                        }
                    }
                }
            }
        } else {
            if key.len() <= k2.len() && k2.subrange(0, key.len() as int) == key {
                lemma_prefix_index(key, k2);
                assert(k2.subrange(0, stem.len() as int) =~= stem) by {
                    assert forall|m: int| 0 <= m < stem.len() implies k2.subrange(
                        0,
                        stem.len() as int,
                    )[m] == stem[m] by {
                        assert(k2.subrange(0, stem.len() as int)[m] == k2[m]);
                        assert(key[m] == stem[m]);
                    }
                }
            }
        }
    }
}

/// Every character below a prefix's length matches the prefix.
proof fn lemma_prefix_index(a: Seq<char>, k: Seq<char>)
    requires
        a.len() <= k.len(),
        k.subrange(0, a.len() as int) == a,
    ensures
        forall|m: int| 0 <= m < a.len() ==> k[m] == a[m],
{
    assert forall|m: int| 0 <= m < a.len() implies k[m] == a[m] by {
        assert(k.subrange(0, a.len() as int)[m] == a[m]);
    }
}

/// A sequence that starts with `a` and continues with `b` is `a + b`.
proof fn lemma_cat_parts(a: Seq<char>, b: Seq<char>, k: Seq<char>)
    requires
        a.len() + b.len() == k.len(),
        k.subrange(0, a.len() as int) == a,
        k.subrange(a.len() as int, k.len() as int) == b,
    ensures
        k == a + b,
{
    assert forall|m: int| 0 <= m < k.len() implies k[m] == (a + b)[m] by {
        if m < a.len() {
            assert(k.subrange(0, a.len() as int)[m] == k[m]);
        } else {
            assert(k.subrange(a.len() as int, k.len() as int)[m - a.len()] == k[m]);
        }
    }
    assert(k =~= a + b);
}

/// A prefix as long as the whole sequence is the sequence.
proof fn lemma_full_prefix(a: Seq<char>, k: Seq<char>)
    requires
        a.len() == k.len(),
        k.subrange(0, a.len() as int) == a,
    ensures
        k == a,
{
    lemma_prefix_index(a, k);
    assert(k =~= a);
}

/// A trie denotes the finite map from each bound key to its value.
impl<T> View for PatriciaTrie<T> {
    type V = Map<Seq<char>, T>;

    open spec fn view(&self) -> Map<Seq<char>, T> {
        Map::new(
            |k: Seq<char>| self.lookup_spec(k) is Some,
            |k: Seq<char>| self.lookup_spec(k).unwrap(),
        )
    }
}

/// Length of the longest common character prefix of `s1` and `s2`.
///
/// The result is pinned down exactly: it is at most the length of either
/// string, all characters below it match pairwise, and whenever both strings
/// continue past it they disagree there.
pub fn longest_common_prefix(s1: &str, s2: &str) -> (r: usize)
    ensures
        r <= s1@.len() && r <= s2@.len(),
        forall|j: int| 0 <= j < r ==> s1@[j] == s2@[j],
        r < s1@.len() && r < s2@.len() ==> s1@[r as int] != s2@[r as int],
{
    let n1 = s1.unicode_len();
    let n2 = s2.unicode_len();
    let mut i: usize = 0;
    while i < n1 && i < n2 && s1.get_char(i) == s2.get_char(i)
        invariant
            n1 == s1@.len(),
            n2 == s2@.len(),
            i <= n1 && i <= n2,
            forall|j: int| 0 <= j < i ==> s1@[j] == s2@[j],
        decreases n1 - i,
    {
        i = i + 1;
    }
    i
}

/// First character of a non-empty string.
pub fn first_char_unwrap(s: &String) -> (c: char)
    requires
        s@.len() > 0,
    ensures
        c == s@[0],
{
    s.as_str().get_char(0)
}

impl<T: core::fmt::Display> PatriciaTrie<T> {
    /// A textual tree drawing for debugging: one line per node, showing its
    /// fragment and value behind branch connectors, indented by depth and
    /// with children in their stored order. The exact format is a
    /// convenience, not part of the trie's contract.
    pub fn render(&self) -> (out: String)
        ensures
            out@.len() > 0,
    {
        self.render_aux(String::new(), true)
    }

    #[verifier::loop_isolation(false)]
    fn render_aux(&self, indent: String, last: bool) -> (out: String)
        ensures
            out@.len() > 0,
        decreases self,
    {
        match self {
            PatriciaTrie::Tip => {
                proof {
                    reveal_strlit("()\n");
                }
                "()\n".to_owned()
            },
            PatriciaTrie::Node { key, value, children } => {
                let mut out = indent.clone();
                let mut deeper = indent;
                if last {
                    out.append("\\-");
                    deeper.append("  ");
                } else {
                    out.append("|-");
                    deeper.append("| ");
                }
                proof {
                    reveal_strlit("\\-");
                    reveal_strlit("|-");
                }
                out.append(key.as_str());
                match value {
                    Some(rc) => {
                        out.append(" => (");
                        let shown = (**rc).to_string();
                        out.append(shown.as_str());
                        out.append(")");
                    },
                    None => {},
                }
                out.append("\n");
                let mut j: usize = 0;
                while j < children.len()
                    invariant
                        j <= children@.len(),
                        out@.len() > 0,
                    decreases children@.len() - j,
                {
                    let sub = (&*children[j].1).render_aux(deeper.clone(), j == children.len()
                        - 1);
                    out.append(sub.as_str());
                    j = j + 1;
                }
                out
            },
        }
    }
}

} // verus!
