//! Canonical-Huffman prefix tree construction: symbols are inserted in
//! ascending order, each landing in the leftmost free slot at its codeword's
//! depth, so equal-length codewords fill in symbol order.

use vstd::prelude::*;

verus! {

/// One tree node: either a leaf carrying a symbol, or an interior node with
/// up to two children.
#[derive(Debug, PartialEq)]
pub struct HuffmanNode {
    pub value: Option<u32>,
    pub left: Option<Box<HuffmanNode>>,
    pub right: Option<Box<HuffmanNode>>,
}

impl HuffmanNode {
    /// A node with nothing in it.
    pub open spec fn blank() -> HuffmanNode {
        HuffmanNode { value: None, left: None, right: None }
    }

    /// A leaf holding `value`.
    pub open spec fn leaf(value: u32) -> HuffmanNode {
        HuffmanNode { value: Some(value), left: None, right: None }
    }

    /// Leaves never have children.
    pub open spec fn wf(self) -> bool
        decreases self,
    {
        &&& (self.value is Some ==> self.left is None && self.right is None)
        &&& (match self.left {
            Some(l) => l.wf(),
            None => true,
        })
        &&& (match self.right {
            Some(r) => r.wf(),
            None => true,
        })
    }

    /// The symbol at the end of `path`, if `path` leads to a leaf.
    pub open spec fn sym(self, path: Seq<bool>) -> Option<u32>
        decreases path.len(),
    {
        if path.len() == 0 {
            self.value
        } else {
            match (if path[0] {
                self.right
            } else {
                self.left
            }) {
                Some(c) => c.sym(path.skip(1)),
                None => None,
            }
        }
    }

    /// Whether a leaf can still be placed `len` levels below this node:
    /// a missing child leaves a whole fresh subtree of room, and an existing
    /// interior child may have room deeper down.
    pub open spec fn avail_at(self, len: nat) -> bool
        decreases len,
    {
        if self.value is Some {
            false
        } else if len == 0 {
            false
        } else if len == 1 {
            self.left is None || self.right is None
        } else {
            ||| self.left is None
            ||| self.right is None
            ||| (match self.left {
                Some(l) => l.avail_at((len - 1) as nat),
                None => false,
            })
            ||| (match self.right {
                Some(r) => r.avail_at((len - 1) as nat),
                None => false,
            })
        }
    }

    /// The tree after placing `value` in the leftmost free slot `len` levels
    /// down: try the left subtree in full before the right one, creating
    /// interior nodes on the way. Meaningful when `avail_at(len)` holds.
    pub open spec fn insert_spec(self, len: nat, value: u32) -> HuffmanNode
        decreases len,
    {
        if len <= 1 {
            if self.left is None {
                HuffmanNode { left: Some(Box::new(Self::leaf(value))), ..self }
            } else {
                HuffmanNode { right: Some(Box::new(Self::leaf(value))), ..self }
            }
        } else {
            match self.left {
                None => HuffmanNode {
                    left: Some(Box::new(Self::blank().insert_spec((len - 1) as nat, value))),
                    ..self
                },
                Some(l) => {
                    if l.value is None && l.avail_at((len - 1) as nat) {
                        HuffmanNode {
                            left: Some(Box::new(l.insert_spec((len - 1) as nat, value))),
                            ..self
                        }
                    } else {
                        match self.right {
                            None => HuffmanNode {
                                right: Some(
                                    Box::new(Self::blank().insert_spec((len - 1) as nat, value)),
                                ),
                                ..self
                            },
                            Some(r) => HuffmanNode {
                                right: Some(Box::new(r.insert_spec((len - 1) as nat, value))),
                                ..self
                            },
                        }
                    }
                },
            }
        }
    }


    /// Placing a symbol uses up exactly one slot: some path of the requested
    /// depth that read as nothing before now reads as the symbol, and every
    /// other path reads exactly as it did.
    pub proof fn lemma_insert_spec_adds_leaf(self, len: nat, value: u32)
        requires
            1 <= len,
            self.avail_at(len),
        ensures
            exists|p: Seq<bool>|
                #![trigger p.len()]
                {
                    &&& p.len() == len
                    &&& self.insert_spec(len, value).sym(p) == Some(value)
                    &&& self.sym(p) is None
                    &&& forall|q: Seq<bool>|
                        q != p ==> self.insert_spec(len, value).sym(q) == self.sym(q)
                },
        decreases len,
    {
        let m = self.insert_spec(len, value);
        if len == 1 {
            if self.left is None {
                let p = seq![false];
                assert(p.skip(1) =~= Seq::<bool>::empty());
                assert(m.left == Some(Box::new(Self::leaf(value))));
                assert(m.sym(p) == Self::leaf(value).sym(p.skip(1)));
                assert(m.sym(p) == Some(value));
                assert(self.sym(p) is None);
                assert forall|q: Seq<bool>| q != p implies m.sym(q) == self.sym(q) by {
                    if q.len() == 0 {
                        assert(m.sym(q) == m.value);
                        assert(self.sym(q) == self.value);
                    } else if !q[0] {
                        if q.len() == 1 {
                            assert(q =~= p);
                        }
                        assert(q.skip(1).len() >= 1);
                        assert(m.sym(q) == Self::leaf(value).sym(q.skip(1)));
                        assert(Self::leaf(value).sym(q.skip(1)) is None);
                        assert(self.sym(q) is None);
                    } else {
                        assert(m.right == self.right);
                    }
                }
                assert(p.len() == len && m.sym(p) == Some(value) && self.sym(p) is None && forall|
                    q: Seq<bool>,
                | q != p ==> m.sym(q) == self.sym(q));
            } else {
                let p = seq![true];
                assert(p.skip(1) =~= Seq::<bool>::empty());
                assert(m.right == Some(Box::new(Self::leaf(value))));
                assert(m.sym(p) == Self::leaf(value).sym(p.skip(1)));
                assert(m.sym(p) == Some(value));
                assert(self.sym(p) is None);
                assert forall|q: Seq<bool>| q != p implies m.sym(q) == self.sym(q) by {
                    if q.len() == 0 {
                        assert(m.sym(q) == m.value);
                        assert(self.sym(q) == self.value);
                    } else if q[0] {
                        if q.len() == 1 {
                            assert(q =~= p);
                        }
                        assert(q.skip(1).len() >= 1);
                        assert(m.sym(q) == Self::leaf(value).sym(q.skip(1)));
                        assert(Self::leaf(value).sym(q.skip(1)) is None);
                        assert(self.sym(q) is None);
                    } else {
                        assert(m.left == self.left);
                    }
                }
                assert(p.len() == len && m.sym(p) == Some(value) && self.sym(p) is None && forall|
                    q: Seq<bool>,
                | q != p ==> m.sym(q) == self.sym(q));
            }
        } else {
            let sub = (len - 1) as nat;
            if self.left is None {
                assert(Self::blank().avail_at(sub));
                Self::blank().lemma_insert_spec_adds_leaf(sub, value);
                let pc = choose|pc: Seq<bool>|
                    #![trigger pc.len()]
                    {
                        &&& pc.len() == sub
                        &&& Self::blank().insert_spec(sub, value).sym(pc) == Some(value)
                        &&& Self::blank().sym(pc) is None
                        &&& forall|q: Seq<bool>|
                            q != pc ==> Self::blank().insert_spec(sub, value).sym(q)
                                == Self::blank().sym(q)
                    };
                let p = seq![false] + pc;
                assert(p.skip(1) =~= pc);
                assert(m.left == Some(Box::new(Self::blank().insert_spec(sub, value))));
                assert(m.sym(p) == Self::blank().insert_spec(sub, value).sym(pc));
                assert(m.sym(p) == Some(value));
                assert(self.sym(p) is None);
                assert forall|q: Seq<bool>| q != p implies m.sym(q) == self.sym(q) by {
                    if q.len() == 0 {
                    } else if !q[0] {
                        if q.skip(1) == pc {
                            assert(q =~= p);
                        }
                        assert(m.sym(q) == Self::blank().insert_spec(sub, value).sym(q.skip(1)));
                        assert(Self::blank().sym(q.skip(1)) is None);
                        assert(self.sym(q) is None);
                    } else {
                        assert(m.right == self.right);
                    }
                }
                assert(p.len() == len && m.sym(p) == Some(value) && self.sym(p) is None && forall|
                    q: Seq<bool>,
                | q != p ==> m.sym(q) == self.sym(q));
            } else {
                let l = self.left->0;
                if l.value is None && l.avail_at(sub) {
                    l.lemma_insert_spec_adds_leaf(sub, value);
                    let pc = choose|pc: Seq<bool>|
                        #![trigger pc.len()]
                        {
                            &&& pc.len() == sub
                            &&& l.insert_spec(sub, value).sym(pc) == Some(value)
                            &&& l.sym(pc) is None
                            &&& forall|q: Seq<bool>|
                                q != pc ==> l.insert_spec(sub, value).sym(q) == l.sym(q)
                        };
                    let p = seq![false] + pc;
                    assert(p.skip(1) =~= pc);
                    assert(m.left == Some(Box::new(l.insert_spec(sub, value))));
                    assert(m.sym(p) == l.insert_spec(sub, value).sym(pc));
                    assert(m.sym(p) == Some(value));
                    assert(self.sym(p) == l.sym(pc));
                    assert(self.sym(p) is None);
                    assert forall|q: Seq<bool>| q != p implies m.sym(q) == self.sym(q) by {
                        if q.len() == 0 {
                        } else if !q[0] {
                            if q.skip(1) == pc {
                                assert(q =~= p);
                            }
                            assert(m.sym(q) == l.insert_spec(sub, value).sym(q.skip(1)));
                            assert(self.sym(q) == l.sym(q.skip(1)));
                        } else {
                            assert(m.right == self.right);
                        }
                    }
                    assert(p.len() == len && m.sym(p) == Some(value) && self.sym(p) is None
                        && forall|q: Seq<bool>| q != p ==> m.sym(q) == self.sym(q));
                } else if self.right is None {
                    assert(Self::blank().avail_at(sub));
                    Self::blank().lemma_insert_spec_adds_leaf(sub, value);
                    let pc = choose|pc: Seq<bool>|
                        #![trigger pc.len()]
                        {
                            &&& pc.len() == sub
                            &&& Self::blank().insert_spec(sub, value).sym(pc) == Some(value)
                            &&& Self::blank().sym(pc) is None
                            &&& forall|q: Seq<bool>|
                                q != pc ==> Self::blank().insert_spec(sub, value).sym(q)
                                    == Self::blank().sym(q)
                        };
                    let p = seq![true] + pc;
                    assert(p.skip(1) =~= pc);
                    assert(m.right == Some(Box::new(Self::blank().insert_spec(sub, value))));
                    assert(m.sym(p) == Self::blank().insert_spec(sub, value).sym(pc));
                    assert(m.sym(p) == Some(value));
                    assert(self.sym(p) is None);
                    assert forall|q: Seq<bool>| q != p implies m.sym(q) == self.sym(q) by {
                        if q.len() == 0 {
                        } else if q[0] {
                            if q.skip(1) == pc {
                                assert(q =~= p);
                            }
                            assert(m.sym(q) == Self::blank().insert_spec(sub, value).sym(
                                q.skip(1),
                            ));
                            assert(Self::blank().sym(q.skip(1)) is None);
                            assert(self.sym(q) is None);
                        } else {
                            assert(m.left == self.left);
                        }
                    }
                    assert(p.len() == len && m.sym(p) == Some(value) && self.sym(p) is None
                        && forall|q: Seq<bool>| q != p ==> m.sym(q) == self.sym(q));
                } else {
                    let r = self.right->0;
                    if l.value is Some {
                        assert(!l.avail_at(sub));
                    }
                    assert(r.avail_at(sub));
                    assert(r.value is None);
                    r.lemma_insert_spec_adds_leaf(sub, value);
                    let pc = choose|pc: Seq<bool>|
                        #![trigger pc.len()]
                        {
                            &&& pc.len() == sub
                            &&& r.insert_spec(sub, value).sym(pc) == Some(value)
                            &&& r.sym(pc) is None
                            &&& forall|q: Seq<bool>|
                                q != pc ==> r.insert_spec(sub, value).sym(q) == r.sym(q)
                        };
                    let p = seq![true] + pc;
                    assert(p.skip(1) =~= pc);
                    assert(m.right == Some(Box::new(r.insert_spec(sub, value))));
                    assert(m.sym(p) == r.insert_spec(sub, value).sym(pc));
                    assert(m.sym(p) == Some(value));
                    assert(self.sym(p) == r.sym(pc));
                    assert(self.sym(p) is None);
                    assert forall|q: Seq<bool>| q != p implies m.sym(q) == self.sym(q) by {
                        if q.len() == 0 {
                        } else if q[0] {
                            if q.skip(1) == pc {
                                assert(q =~= p);
                            }
                            assert(m.sym(q) == r.insert_spec(sub, value).sym(q.skip(1)));
                            assert(self.sym(q) == r.sym(q.skip(1)));
                        } else {
                            assert(m.left == self.left);
                        }
                    }
                    assert(p.len() == len && m.sym(p) == Some(value) && self.sym(p) is None
                        && forall|q: Seq<bool>| q != p ==> m.sym(q) == self.sym(q));
                }
            }
        }
    }

    /// Place `value` at depth `length`, leftmost slot first; `false` means the
    /// subtree has no room at that depth.
    fn insert(&mut self, length: u8, value: u32) -> (done: bool)
        requires
            old(self).wf(),
            old(self).value is None,
            length >= 1,
        ensures
            final(self).wf(),
            final(self).value is None,
            done == old(self).avail_at(length as nat),
            done ==> *final(self) == old(self).insert_spec(length as nat, value),
            !done ==> *final(self) == *old(self),
        decreases length,
    {
        if length == 1 {
            proof {
                assert(HuffmanNode::leaf(value).wf());
            }
            if self.left.is_none() {
                self.left = Some(Box::new(HuffmanNode { value: Some(value), left: None, right: None }));
                return true;
            }
            if self.right.is_none() {
                self.right = Some(Box::new(HuffmanNode { value: Some(value), left: None, right: None }));
                return true;
            }
            false
        } else {
            match self.left.take() {
                None => {
                    let mut fresh = Box::new(HuffmanNode { value: None, left: None, right: None });
                    let _done = (&mut *fresh).insert(length - 1, value);
                    self.left = Some(fresh);
                    assert(HuffmanNode::blank().avail_at((length - 1) as nat));
                    return true;
                },
                Some(mut l) => {
                    if l.value.is_none() {
                        let done = (&mut *l).insert(length - 1, value);
                        self.left = Some(l);
                        if done {
                            return true;
                        }
                    } else {
                        proof {
                            assert(!l.avail_at((length - 1) as nat));
                        }
                        self.left = Some(l);
                    }
                },
            }
            match self.right.take() {
                None => {
                    let mut fresh = Box::new(HuffmanNode { value: None, left: None, right: None });
                    let _done = (&mut *fresh).insert(length - 1, value);
                    self.right = Some(fresh);
                    assert(HuffmanNode::blank().avail_at((length - 1) as nat));
                    return true;
                },
                Some(mut r) => {
                    if r.value.is_none() {
                        let done = (&mut *r).insert(length - 1, value);
                        self.right = Some(r);
                        if done {
                            return true;
                        }
                    } else {
                        proof {
                            assert(!r.avail_at((length - 1) as nat));
                        }
                        self.right = Some(r);
                    }
                },
            }
            false
        }
    }
}

/// A canonical-Huffman code tree under construction.
#[derive(Debug, PartialEq)]
pub struct HuffmanTree {
    root: HuffmanNode,
}

impl HuffmanTree {
    /// The root node, for specifications.
    pub closed spec fn repr(self) -> HuffmanNode {
        self.root
    }

    /// The root is an interior node and every leaf is childless.
    pub closed spec fn wf(self) -> bool {
        self.root.wf() && self.root.value is None
    }

    pub fn new() -> (t: HuffmanTree)
        ensures
            t.wf(),
            t.repr() == HuffmanNode::blank(),
    {
        HuffmanTree { root: HuffmanNode { value: None, left: None, right: None } }
    }

    /// Insert the next symbol with a codeword of `length` bits; `false` means
    /// the lengths seen so far cannot form a canonical prefix code.
    pub fn add_node(&mut self, length: u8, value: u32) -> (done: bool)
        requires
            old(self).wf(),
            length >= 1,
        ensures
            final(self).wf(),
            done == old(self).repr().avail_at(length as nat),
            done ==> final(self).repr() == old(self).repr().insert_spec(length as nat, value),
            !done ==> final(self).repr() == old(self).repr(),
    {
        self.root.insert(length, value)
    }

    /// Follow `path` from the root (`false` for left) and return the symbol
    /// of the leaf it ends on, if any.
    pub fn symbol_at(&self, path: &Vec<bool>) -> (r: Option<u32>)
        ensures
            r == self.repr().sym(path@),
    {
        let mut cur: &HuffmanNode = &self.root;
        let mut i: usize = 0;
        proof {
            assert(path@.skip(0) =~= path@);
        }
        while i < path.len()
            invariant
                i <= path@.len(),
                self.repr().sym(path@) == cur.sym(path@.skip(i as int)),
            decreases path@.len() - i,
        {
            proof {
                assert(path@.skip(i as int).skip(1) =~= path@.skip(i as int + 1));
            }
            let child = if path[i] {
                &cur.right
            } else {
                &cur.left
            };
            match child {
                Some(c) => {
                    cur = &**c;
                },
                None => {
                    return None;
                },
            }
            i = i + 1;
        }
        proof {
            assert(path@.skip(i as int) =~= Seq::<bool>::empty());
        }
        cur.value
    }
}

} // verus!
