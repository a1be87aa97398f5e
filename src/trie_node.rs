//! The trie itself: nodes addressed by the bits of a `u32` key, each with an
//! optional payload and a memoised digest of its subtree.
use crate::digest::{digest_empty, digest_joined, digest_text, hashed};
use crate::text::Payload;
use vstd::prelude::*;

verus! {

/// The binary path of `k`: its minimal binary numeral, most significant bit
/// first (`0` is the one-bit path `[0]`).
pub open spec fn bits(k: nat) -> Seq<u8>
    decreases k,
{
    if k < 2 {
        seq![k as u8]
    } else {
        bits(k / 2).push((k % 2) as u8)
    }
}

/// Whether every step of `p` is `0` or `1`.
pub open spec fn is_binary(p: Seq<u8>) -> bool {
    forall|i: int| 0 <= i < p.len() ==> p[i] <= 1
}

/// Whether the node at the end of `p` lies on the walk to the end of `q`,
/// the end of `q` included: `p` is a prefix of `q`.
pub open spec fn on_walk(p: Seq<u8>, q: Seq<u8>) -> bool {
    p.len() <= q.len() && q.subrange(0, p.len() as int) == p
}

/// The text that a node's own payload contributes to its digest.
pub open spec fn payload_text<T: Payload>(data: Option<T>) -> Seq<char> {
    match data {
        Some(d) => d.text(),
        None => Seq::empty(),
    }
}

/// The contents of a trie node, without its cache: the payload and the
/// two children (the child of bit `0` and the child of bit `1`).
pub struct TrieView<T> {
    pub data: Option<T>,
    pub zero: Option<Box<TrieView<T>>>,
    pub one: Option<Box<TrieView<T>>>,
}

impl<T> TrieView<T> {
    /// A node with no payload and no children.
    pub open spec fn empty() -> TrieView<T> {
        TrieView { data: None, zero: None, one: None }
    }

    /// The child taken for `bit` (`1` selects the one-child, anything else
    /// the zero-child).
    pub open spec fn child(self, bit: u8) -> Option<Box<TrieView<T>>> {
        if bit == 1 {
            self.one
        } else {
            self.zero
        }
    }

    /// This node with the child for `bit` replaced by `c`.
    pub open spec fn with_child(self, bit: u8, c: TrieView<T>) -> TrieView<T> {
        if bit == 1 {
            TrieView { data: self.data, zero: self.zero, one: Some(Box::new(c)) }
        } else {
            TrieView { data: self.data, zero: Some(Box::new(c)), one: self.one }
        }
    }

    /// The node reached by following `p` from here, first bit first.
    pub open spec fn at(self, p: Seq<u8>) -> Option<TrieView<T>>
        decreases p.len(),
    {
        if p.len() == 0 {
            Some(self)
        } else {
            match self.child(p[0]) {
                Some(c) => c.at(p.drop_first()),
                None => None,
            }
        }
    }

    /// This node after storing `v` at the end of `p`: the nodes missing on
    /// the way are created empty, and the payload found at the end is
    /// replaced.
    pub open spec fn inserted(self, p: Seq<u8>, v: T) -> TrieView<T>
        decreases p.len(),
    {
        if p.len() == 0 {
            TrieView { data: Some(v), zero: self.zero, one: self.one }
        } else {
            let c = match self.child(p[0]) {
                Some(c) => *c,
                None => TrieView::empty(),
            };
            self.with_child(p[0], c.inserted(p.drop_first(), v))
        }
    }

    /// The node of key `k`, if there is one.
    pub open spec fn find(self, k: u32) -> Option<TrieView<T>> {
        self.at(bits(k as nat))
    }
}

impl<T: Payload> TrieView<T> {
    /// The digest of the node's own payload (of the empty text if it has none).
    pub open spec fn own_digest(self) -> Seq<char> {
        hashed(payload_text(self.data))
    }

    /// The Merkle digest of the subtree rooted here. A leaf has its own
    /// digest; any other node hashes its own digest followed by the digests
    /// of its zero-child and its one-child, an absent child counting as the
    /// digest of the empty text.
    pub open spec fn digest(self) -> Seq<char>
        decreases self,
    {
        if self.zero is None && self.one is None {
            self.own_digest()
        } else {
            let z = match self.zero {
                Some(c) => c.digest(),
                None => hashed(Seq::empty()),
            };
            let o = match self.one {
                Some(c) => c.digest(),
                None => hashed(Seq::empty()),
            };
            hashed(self.own_digest() + z + o)
        }
    }
}

/// A node of a binary trie keyed by `u32`. The root owns the whole tree.
#[derive(Debug, PartialEq)]
pub struct TrieNode<T> {
    maybe_data: Option<T>,
    zero: Option<Box<TrieNode<T>>>,
    one: Option<Box<TrieNode<T>>>,
    maybe_cached_merkle_root: Option<String>,
}

impl<T> TrieNode<T> {
    /// The contents of the subtree rooted here.
    pub closed spec fn contents(self) -> TrieView<T>
        decreases self,
    {
        TrieView {
            data: self.maybe_data,
            zero: match self.zero {
                Some(c) => Some(Box::new(c.contents())),
                None => None,
            },
            one: match self.one {
                Some(c) => Some(Box::new(c.contents())),
                None => None,
            },
        }
    }
}

impl<T> TrieNode<T> {
    /// The digest memoised at this node, if any.
    pub closed spec fn cached(self) -> Option<Seq<char>> {
        match self.maybe_cached_merkle_root {
            Some(d) => Some(d@),
            None => None,
        }
    }

    /// The child for `bit` (`1` selects the one-child, anything else the
    /// zero-child).
    closed spec fn slot(self, bit: u8) -> Option<Box<TrieNode<T>>> {
        if bit == 1 {
            self.one
        } else {
            self.zero
        }
    }

    /// The digest memoised at the node at the end of `p`, or `None` when
    /// there is no node there.
    pub closed spec fn cached_at(self, p: Seq<u8>) -> Option<Option<Seq<char>>>
        decreases p.len(),
    {
        if p.len() == 0 {
            Some(self.cached())
        } else {
            match self.slot(p[0]) {
                Some(c) => c.cached_at(p.drop_first()),
                None => None,
            }
        }
    }
}

impl<T> View for TrieNode<T> {
    type V = TrieView<T>;

    open spec fn view(&self) -> TrieView<T> {
        self.contents()
    }
}

impl<T: Payload> TrieNode<T> {
    /// Every memoised digest in the subtree equals the digest of the
    /// subtree it was taken of.
    pub closed spec fn wf(self) -> bool
        decreases self,
    {
        &&& match self.maybe_cached_merkle_root {
            Some(d) => d@ == self.contents().digest(),
            None => true,
        }
        &&& match self.zero {
            Some(c) => c.wf(),
            None => true,
        }
        &&& match self.one {
            Some(c) => c.wf(),
            None => true,
        }
    }

    /// An empty tree: no payload, no children.
    pub fn new() -> (r: Self)
        ensures
            r@ == TrieView::<T>::empty(),
            r.wf(),
            r.cached() is None,
    {
        TrieNode { maybe_data: None, zero: None, one: None, maybe_cached_merkle_root: None }
    }

    /// A single node carrying `data`.
    pub fn new_with(data: T) -> (r: Self)
        ensures
            r@ == (TrieView::<T> { data: Some(data), zero: None, one: None }),
            r.wf(),
            r.cached() is None,
    {
        TrieNode { maybe_data: Some(data), zero: None, one: None, maybe_cached_merkle_root: None }
    }

    /// Replaces this node's payload, leaving its children as they are.
    pub fn set_data(&mut self, data: T)
        requires
            old(self).wf(),
        ensures
            final(self)@ == (TrieView::<T> { data: Some(data), zero: old(self)@.zero, one: old(self)@.one }),
            final(self).wf(),
            final(self).cached() is None,
            forall|q: Seq<u8>| q.len() > 0 ==> #[trigger] final(self).cached_at(q) == old(self).cached_at(q),
    {
        self.maybe_data = Some(data);
        self.maybe_cached_merkle_root = None;
    }

    /// This node's payload, if it has one.
    pub fn get_data(&self) -> (r: Option<&T>)
        ensures
            r is Some <==> self@.data is Some,
            r is Some ==> r->0 == self@.data->0,
    {
        self.maybe_data.as_ref()
    }

    /// The binary path of `key`, most significant bit first.
    pub fn path_to_node(key: u32) -> (r: Vec<u8>)
        ensures
            r@ == bits(key as nat),
    {
        let mut r: Vec<u8> = Vec::new();
        let mut k: u32 = key;
        while k >= 2
            invariant
                bits(key as nat) == bits(k as nat) + r@,
            decreases k,
        {
            let ghost before = r@;
            r.insert(0, (k % 2) as u8);
            assert(bits(k as nat) + before =~= bits((k / 2) as nat) + r@);
            k = k / 2;
        }
        let ghost before = r@;
        r.insert(0, k as u8);
        assert(bits(k as nat) + before =~= r@);
        r
    }
}

impl<T: Payload> Default for TrieNode<T> {
    /// An empty tree, as `new` makes it.
    fn default() -> (r: Self)
        ensures
            r@ == TrieView::<T>::empty(),
            r.wf(),
            r.cached() is None,
    {
        Self::new()
    }
}

impl<T: Payload> TrieNode<T> {
    /// The digest of the subtree in `slot`, or of the empty text when the
    /// slot is empty; memoises what it computes.
    fn slot_merkle_root(slot: &mut Option<Box<TrieNode<T>>>) -> (r: String)
        requires
            match *old(slot) {
                Some(c) => c.wf(),
                None => true,
            },
        ensures
            match *old(slot) {
                Some(c) => r@ == c@.digest(),
                None => r@ == hashed(Seq::empty()),
            },
            match *final(slot) {
                Some(c) => c.wf(),
                None => true,
            },
            final(slot).is_some() == old(slot).is_some(),
            final(slot).is_some() ==> final(slot).unwrap()@ == old(slot).unwrap()@,
        decreases *old(slot),
    {
        match slot.take() {
            Some(mut c) => {
                let r = (&mut *c).merkle_root();
                *slot = Some(c);
                r
            },
            None => digest_empty(),
        }
    }

    /// The Merkle digest of the subtree rooted here. It is memoised in each
    /// node on the way, and taken from there while nothing below changes.
    pub fn merkle_root(&mut self) -> (r: String)
        requires
            old(self).wf(),
        ensures
            r@ == old(self)@.digest(),
            final(self)@ == old(self)@,
            final(self).wf(),
            final(self).cached() == Some(r@),
        decreases *old(self),
    {
        match &self.maybe_cached_merkle_root {
            Some(cached) => {
                return cached.clone();
            },
            None => {},
        }
        let is_leaf = self.zero.is_none() && self.one.is_none();
        let data = match &self.maybe_data {
            Some(d) => d.render(),
            None => String::new(),
        };
        let own = digest_text(data.as_str());
        if is_leaf {
            self.maybe_cached_merkle_root = Some(own.clone());
            own
        } else {
            let left = Self::slot_merkle_root(&mut self.zero);
            let right = Self::slot_merkle_root(&mut self.one);
            let hash = digest_joined(own, left.as_str(), right.as_str());
            self.maybe_cached_merkle_root = Some(hash.clone());
            hash
        }
    }
}

impl<T: Payload> TrieNode<T> {
    /// Stores `data` at the end of the walk `path[index..]`, which starts
    /// here; every node on the way forgets its memoised digest.
    fn insert_at(&mut self, path: &Vec<u8>, index: usize, data: T)
        requires
            index < path@.len(),
            is_binary(path@),
            old(self).wf(),
        ensures
            final(self)@ == old(self)@.inserted(path@.subrange(index as int, path@.len() as int), data),
            final(self).wf(),
            forall|q: Seq<u8>|
                is_binary(q) && on_walk(q, path@.subrange(index as int, path@.len() as int))
                    ==> #[trigger] final(self).cached_at(q) == Some(None::<Seq<char>>),
            forall|q: Seq<u8>|
                is_binary(q) && !on_walk(q, path@.subrange(index as int, path@.len() as int))
                    ==> #[trigger] final(self).cached_at(q) == old(self).cached_at(q),
        decreases path@.len() - index,
    {
        let ghost p = path@.subrange(index as int, path@.len() as int);
        assert(p[0] == path@[index as int]);
        assert(p.drop_first() =~= path@.subrange(index + 1, path@.len() as int));
        self.maybe_cached_merkle_root = None;
        let bit = path[index];
        let taken = if bit == 1 {
            self.one.take()
        } else {
            self.zero.take()
        };
        let mut child = match taken {
            Some(c) => c,
            None => Box::new(TrieNode::new()),
        };
        let ghost old_child = *child;
        if path.len() - index == 1 {
            assert(p.drop_first().len() == 0);
            assert(child@.inserted(p.drop_first(), data) == (TrieView::<T> {
                data: Some(data),
                zero: child@.zero,
                one: child@.one,
            }));
            (&mut *child).set_data(data);
        } else {
            (&mut *child).insert_at(path, index + 1, data);
        }
        let ghost new_child = *child;
        if bit == 1 {
            self.one = Some(child);
        } else {
            self.zero = Some(child);
        }
        assert(bit <= 1);
        assert forall|q: Seq<u8>| is_binary(q) && q.len() > 0 && q[0] == bit implies
            (on_walk(q, p) <==> on_walk(q.drop_first(), p.drop_first())) by {
            if on_walk(q.drop_first(), p.drop_first()) {
                assert forall|i: int| 0 <= i < q.len() implies p[i] == q[i] by {
                    if i > 0 {
                        assert(p.drop_first().subrange(0, q.len() - 1)[i - 1] == q.drop_first()[i - 1]);
                    }
                }
                assert(p.subrange(0, q.len() as int) =~= q);
            }
            if on_walk(q, p) {
                assert(p.drop_first().subrange(0, q.len() - 1) =~= q.drop_first());
            }
        }
        assert forall|q: Seq<u8>| is_binary(q) && !on_walk(q, p) implies
            #[trigger] self.cached_at(q) == old(self).cached_at(q) by {
            if q.len() == 0 {
                assert(p.subrange(0, 0) =~= q);
            } else if q[0] == bit {
                let qq = q.drop_first();
                assert(is_binary(qq));
                if qq.len() == 0 {
                    assert(p.subrange(0, 1) =~= q);
                }
                assert(self.cached_at(q) == new_child.cached_at(qq));
                assert(new_child.cached_at(qq) == old_child.cached_at(qq));
            }
        }
        assert forall|q: Seq<u8>| is_binary(q) && on_walk(q, p) implies
            #[trigger] self.cached_at(q) == Some(None::<Seq<char>>) by {
            if q.len() > 0 {
                assert(q[0] == p[0]);
                let qq = q.drop_first();
                assert(is_binary(qq));
                assert(self.cached_at(q) == new_child.cached_at(qq));
            }
        }
    }

    /// Stores `data` at the node of `key`, creating the nodes missing on
    /// its path and replacing a payload that is already there.
    pub fn insert(&mut self, key: u32, data: T)
        requires
            old(self).wf(),
        ensures
            final(self)@ == old(self)@.inserted(bits(key as nat), data),
            final(self).wf(),
            forall|q: Seq<u8>|
                is_binary(q) && on_walk(q, bits(key as nat))
                    ==> #[trigger] final(self).cached_at(q) == Some(None::<Seq<char>>),
            forall|q: Seq<u8>|
                is_binary(q) && !on_walk(q, bits(key as nat))
                    ==> #[trigger] final(self).cached_at(q) == old(self).cached_at(q),
    {
        let path = Self::path_to_node(key);
        proof {
            lemma_bits_nonempty(key as nat);
        }
        assert(path@.subrange(0, path@.len() as int) =~= path@);
        self.insert_at(&path, 0, data);
    }
}

impl<T: Payload> TrieNode<T> {
    /// The child for `bit`, if there is one.
    fn child(&self, bit: u8) -> (r: Option<&TrieNode<T>>)
        ensures
            r is Some <==> self@.child(bit) is Some,
            r is Some ==> self@.child(bit) == Some(Box::new(r->0@)),
    {
        if bit == 1 {
            match &self.one {
                Some(c) => Some(&**c),
                None => None,
            }
        } else {
            match &self.zero {
                Some(c) => Some(&**c),
                None => None,
            }
        }
    }

    /// The node of `key`, or `None` when a node on its path is missing.
    pub fn find_by_key(&self, key: u32) -> (r: Option<&TrieNode<T>>)
        ensures
            r is Some <==> self@.find(key) is Some,
            r is Some ==> self@.find(key) == Some(r->0@),
    {
        let path = Self::path_to_node(key);
        proof {
            lemma_bits_nonempty(key as nat);
        }
        let mut index: usize = 0;
        let mut node: &TrieNode<T> = self;
        assert(path@.subrange(0, path@.len() as int) =~= path@);
        loop
            invariant
                index < path@.len(),
                path@ == bits(key as nat),
                node@.at(path@.subrange(index as int, path@.len() as int)) == self@.find(key),
            decreases path@.len() - index,
        {
            let ghost p = path@.subrange(index as int, path@.len() as int);
            assert(p[0] == path@[index as int]);
            assert(p.drop_first() =~= path@.subrange(index + 1, path@.len() as int));
            match node.child(path[index]) {
                None => {
                    return None;
                },
                Some(next) => {
                    if path.len() - index == 1 {
                        assert(next@.at(p.drop_first()) == Some(next@));
                        return Some(next);
                    }
                    node = next;
                    index = index + 1;
                },
            }
        }
    }
}

/// Every binary path has at least one bit, and each bit is `0` or `1`.
pub proof fn lemma_bits_nonempty(k: nat)
    ensures
        bits(k).len() >= 1,
        forall|i: int| 0 <= i < bits(k).len() ==> bits(k)[i] <= 1,
    decreases k,
{
    if k >= 2 {
        lemma_bits_nonempty(k / 2);
    }
}

} // verus!
