//! A persistent rope over text.
//!
//! Positions count characters (Unicode scalar values) throughout: `size`,
//! `nth`, `split`, `insert` and `delete` all use the same unit, and the view
//! of a rope is the sequence of its characters.

use std::rc::Rc;
use vstd::math::min;
use vstd::prelude::*;

verus! {

/// An inner node: two owned children and the cached lengths.
pub struct RopeNode {
    left: Box<Rope>,
    right: Box<Rope>,
    size: usize,
    size_left: usize,
}

/// A rope is either one shared text buffer or a node over two ropes.
pub enum Rope {
    Node(RopeNode),
    Leaf(Rc<String>),
}

/// The texts of `v`, joined in order.
pub open spec fn joined(v: Seq<Rope>) -> Seq<char>
    decreases v.len(),
{
    if v.len() == 0 {
        Seq::empty()
    } else {
        joined(v.drop_last()) + v.last()@
    }
}

/// Every rope of `v` is well formed.
pub open spec fn all_wf(v: Seq<Rope>) -> bool {
    forall|k: int| 0 <= k < v.len() ==> (#[trigger] v[k]).wf()
}

/// Every rope of `v` is compact and holds some text.
pub open spec fn all_compact(v: Seq<Rope>) -> bool {
    forall|k: int| 0 <= k < v.len() ==> (#[trigger] v[k]).compact() && v[k]@.len() > 0
}

/// The text of an optional rope; nothing where it is absent.
pub open spec fn text_or_empty(r: Option<Rope>) -> Seq<char> {
    match r {
        Some(x) => x@,
        None => Seq::empty(),
    }
}

impl Rope {
    /// The text of the rope: its leaves read from left to right.
    pub closed spec fn view(&self) -> Seq<char>
        decreases self,
    {
        match self {
            Rope::Leaf(s) => s@,
            Rope::Node(n) => n.left.view() + n.right.view(),
        }
    }

    /// Every node caches the length of its text and of its left child's
    /// text, and the text of every leaf has a length that fits in `usize`.
    pub closed spec fn wf(&self) -> bool
        decreases self,
    {
        match self {
            Rope::Leaf(s) => s@.len() <= usize::MAX,
            Rope::Node(n) => {
                &&& n.left.wf()
                &&& n.right.wf()
                &&& n.size_left == n.left@.len()
                &&& n.size == n.left@.len() + n.right@.len()
            },
        }
    }

    /// No node has a right child without text.
    pub closed spec fn compact(&self) -> bool
        decreases self,
    {
        match self {
            Rope::Leaf(_) => true,
            Rope::Node(n) => n.left.compact() && n.right.compact() && n.right@.len() > 0,
        }
    }

    /// What `size` reads: the length of a leaf's buffer, the cached size of a node.
    pub closed spec fn spec_size(&self) -> nat {
        match self {
            Rope::Leaf(s) => s@.len(),
            Rope::Node(n) => n.size as nat,
        }
    }

    /// The length of the rightmost leaf.
    pub closed spec fn last_leaf_len(&self) -> nat
        decreases self,
    {
        match self {
            Rope::Leaf(s) => s@.len(),
            Rope::Node(n) => n.right.last_leaf_len(),
        }
    }

    /// The left child of a node.
    pub closed spec fn left_child(self) -> Rope
        recommends
            self is Node,
    {
        match self {
            Rope::Node(n) => *n.left,
            Rope::Leaf(_) => self,
        }
    }

    /// The right child of a node.
    pub closed spec fn right_child(self) -> Rope
        recommends
            self is Node,
    {
        match self {
            Rope::Node(n) => *n.right,
            Rope::Leaf(_) => self,
        }
    }

    /// The node that `concat` builds over `self` and `other`.
    pub closed spec fn spec_concat(self, other: Rope) -> Rope {
        Rope::Node(
            RopeNode {
                left: Box::new(self),
                right: Box::new(other),
                size: (self@.len() + other@.len()) as usize,
                size_left: self@.len() as usize,
            },
        )
    }

    /// The left-to-right fold of `v` by `spec_concat`; `None` for no ropes.
    pub open spec fn spec_fold(v: Seq<Rope>) -> Option<Rope>
        decreases v.len(),
    {
        if v.len() == 0 {
            None
        } else if v.len() == 1 {
            Some(v[0])
        } else {
            Some(Rope::spec_fold(v.drop_last()).unwrap().spec_concat(v.last()))
        }
    }

    /// Whether a cut at `i` leaves a right part. It does where `i` lies
    /// before the end, and also where `i` is the end of a node whose
    /// rightmost leaf is empty: that leaf is then the right part.
    pub open spec fn has_rest(&self, i: usize) -> bool {
        i < self@.len() || (self is Node && i == self@.len() && self.last_leaf_len() == 0)
    }

    /// The rightmost leaf holds a part of the text.
    pub proof fn lemma_last_leaf_bound(self)
        ensures
            self.last_leaf_len() <= self@.len(),
        decreases self,
    {
        match self {
            Rope::Leaf(_) => {},
            Rope::Node(n) => {
                n.right.lemma_last_leaf_bound();
            },
        }
    }

    /// In a compact rope a cut leaves a right part exactly where it lies
    /// before the end.
    pub proof fn lemma_compact_rest(self, i: usize)
        requires
            self.compact(),
        ensures
            self.has_rest(i) <==> i < self@.len(),
    {
        self.lemma_compact_last_leaf();
    }

    /// The rightmost leaf of a compact node holds some text.
    pub proof fn lemma_compact_last_leaf(self)
        requires
            self.compact(),
        ensures
            self is Node ==> self.last_leaf_len() > 0,
        decreases self,
    {
        match self {
            Rope::Leaf(_) => {},
            Rope::Node(n) => {
                n.right.lemma_compact_last_leaf();
            },
        }
    }

    /// A rope of one leaf that holds `s`.
    pub fn new(s: String) -> (r: Rope)
        requires
            s@.len() <= usize::MAX,
        ensures
            r@ == s@,
            r.wf(),
            r.compact(),
            r is Leaf,
            r.last_leaf_len() == s@.len(),
    {
        Rope::Leaf(Rc::new(s))
    }

    /// The character at position `i`, if the rope is that long.
    pub fn nth(&self, i: usize) -> (c: Option<char>)
        requires
            self.wf(),
        ensures
            c == (if i < self@.len() {
                Some(self@[i as int])
            } else {
                None
            }),
        decreases self,
    {
        match self {
            Rope::Node(rn) => {
                if rn.size_left <= i {
                    if i >= rn.size {
                        None
                    } else {
                        rn.right.nth(i - rn.size_left)
                    }
                } else {
                    rn.left.nth(i)
                }
            },
            Rope::Leaf(s) => {
                let text = s.as_str();
                if i < text.unicode_len() {
                    Some(text.get_char(i))
                } else {
                    None
                }
            },
        }
    }

    /// The number of characters in the rope.
    pub fn size(&self) -> (n: usize)
        requires
            self.wf(),
        ensures
            n == self.spec_size(),
            n == self@.len(),
    {
        match self {
            Rope::Leaf(s) => s.as_str().unicode_len(),
            Rope::Node(rn) => rn.size,
        }
    }

    /// A node over `self` and `other`, in this order.
    pub fn concat(self, other: Rope) -> (r: Rope)
        requires
            self.wf(),
            other.wf(),
            self@.len() + other@.len() <= usize::MAX,
        ensures
            r == self.spec_concat(other),
            r@ == self@ + other@,
            r.wf(),
            r is Node,
            r.left_child() == self,
            r.right_child() == other,
            r.last_leaf_len() == other.last_leaf_len(),
            self.compact() && other.compact() && other@.len() > 0 ==> r.compact(),
    {
        let size_left = self.size();
        let size = size_left + other.size();
        Rope::Node(RopeNode { left: Box::new(self), right: Box::new(other), size, size_left })
    }

    /// The fold of `v` by `concat`, from the left; `None` for no ropes.
    pub fn construct_from_vec(v: Vec<Rope>) -> (r: Option<Rope>)
        requires
            all_wf(v@),
            joined(v@).len() <= usize::MAX,
        ensures
            r == Rope::spec_fold(v@),
            r is None <==> v@.len() == 0,
            r matches Some(x) ==> x.wf() && x@ == joined(v@),
            r matches Some(x) ==> (all_compact(v@) ==> x.compact() && x@.len() > 0),
    {
        let ghost all = v@;
        let mut curr: Option<Rope> = None;
        for piece in it: v.into_iter()
            invariant
                it.seq() == all,
                all_wf(all),
                joined(all).len() <= usize::MAX,
                curr == Rope::spec_fold(all.take(it.index())),
                curr is None <==> it.index() == 0,
                curr matches Some(x) ==> x.wf() && x@ == joined(all.take(it.index())),
                curr matches Some(x) ==> (all_compact(all) ==> x.compact() && x@.len() > 0),
        {
            let ghost k = it.index();
            proof {
                assert(all.take(k + 1).drop_last() == all.take(k));
                assert(all.take(k + 1).last() == piece);
                lemma_joined_prefix(all, k + 1);
            }
            curr = match curr {
                None => Some(piece),
                Some(x) => Some(x.concat(piece)),
            };
        }
        proof {
            assert(all.take(all.len() as int) == all);
        }
        curr
    }

    /// Cuts `self` at `i`. Returns what lies before the cut, and `v` with the
    /// pieces after the cut added behind it, in text order.
    fn do_split(self, i: usize, v: Vec<Rope>) -> (res: (Rope, Vec<Rope>))
        requires
            self.wf(),
            all_wf(v@),
            joined(v@).len() + self@.len() <= usize::MAX,
        ensures
            res.0.wf(),
            res.0@ == self@.take(min(i as int, self@.len() as int)),
            all_wf(res.1@),
            joined(res.1@) == joined(v@) + self@.skip(min(i as int, self@.len() as int)),
            res.1@.len() == 0 <==> v@.len() == 0 && !self.has_rest(i),
            self.compact() && all_compact(v@) ==> res.0.compact() && all_compact(res.1@),
            self is Leaf && i >= self@.len() ==> res.0 == self && res.1@ == v@,
            self is Node && i == self.left_child()@.len() ==> res.0 == self.left_child() && res.1@
                == v@.push(self.right_child()),
        decreases self,
    {
        let mut v = v;
        let ghost whole = self;
        match self {
            Rope::Leaf(s) => {
                let text = s.as_str();
                let len = text.unicode_len();
                if i >= len {
                    return (Rope::Leaf(s), v);
                }
                let before = text.substring_char(0, i).to_owned();
                let after = text.substring_char(i, len).to_owned();
                proof {
                    lemma_joined_push(v@, Rope::Leaf(Rc::new(after)));
                }
                v.push(Rope::Leaf(Rc::new(after)));
                (Rope::Leaf(Rc::new(before)), v)
            },
            Rope::Node(rn) => {
                let RopeNode { left, right, size_left, .. } = rn;
                let ghost text = left@ + right@;
                if i < size_left {
                    // The cut lies in the left child: what the left child
                    // gives back carries its rest, which joins the right one.
                    let (res, pieces) = (*left).do_split(i, v);
                    let mut out: Vec<Rope> = Vec::new();
                    if pieces.len() == 0 {
                        out.push(*right);
                    } else {
                        let rest = Rope::construct_from_vec(pieces).unwrap();
                        out.push(rest.concat(*right));
                    }
                    proof {
                        assert(out@ == Seq::<Rope>::empty().push(out@[0]));
                        lemma_joined_push(Seq::<Rope>::empty(), out@[0]);
                        assert(text.take(i as int) == left@.take(i as int));
                        assert(text.skip(i as int) == left@.skip(i as int) + right@);
                    }
                    (res, out)
                } else if i == size_left {
                    proof {
                        right.lemma_last_leaf_bound();
                        lemma_joined_push(v@, *right);
                        assert(text.take(i as int) == left@);
                        assert(text.skip(i as int) == right@);
                    }
                    v.push(*right);
                    (*left, v)
                } else {
                    // The cut lies in the right child: the node keeps what
                    // comes before it.
                    let ghost at = min(i - size_left, right@.len() as int);
                    proof {
                        assert(text.take(size_left + at) == left@ + right@.take(at));
                        assert(text.skip(size_left + at) == right@.skip(at));
                        // The rightmost leaf of the node is that of its
                        // right child, so both leave a rest or neither.
                        assert(whole.last_leaf_len() == right.last_leaf_len());
                        assert(*right is Leaf ==> right.last_leaf_len() == right@.len());
                        assert(whole.has_rest(i) <==> right.has_rest((i - size_left) as usize));
                    }
                    let (kept, pieces) = (*right).do_split(i - size_left, v);
                    let res = if kept.size() == 0 {
                        proof {
                            assert(left@ + right@.take(at) == left@);
                        }
                        *left
                    } else {
                        (*left).concat(kept)
                    };
                    (res, pieces)
                }
            },
        }
    }

    /// Cuts the rope at `i`: the first `i` characters, and the rest. Where
    /// `i` is the size or more, the left part is the whole text; the right
    /// part is absent unless `has_rest` says otherwise. A leaf that the
    /// cut does not reach comes back as it is, and so do the two children
    /// of a node that is cut between them.
    pub fn split(self, i: usize) -> (res: (Rope, Option<Rope>))
        requires
            self.wf(),
        ensures
            res.0.wf(),
            res.0@ == self@.take(min(i as int, self@.len() as int)),
            res.0@.len() == min(i as int, self@.len() as int),
            res.1 is Some <==> self.has_rest(i),
            res.1 matches Some(r) ==> r.wf() && r@ == self@.skip(min(i as int, self@.len() as int)),
            res.0@ + text_or_empty(res.1) == self@,
            self.compact() ==> res.0.compact() && (res.1 is Some <==> i < self@.len()),
            self.compact() ==> (res.1 matches Some(r) ==> r.compact()),
            self is Leaf && i >= self@.len() ==> res.0 == self,
            self is Node && i == self.left_child()@.len() ==> res.0 == self.left_child() && res.1
                == Some(self.right_child()),
    {
        proof {
            if self.compact() {
                self.lemma_compact_rest(i);
            }
        }
        let (left, pieces) = self.do_split(i, Vec::new());
        (left, Rope::construct_from_vec(pieces))
    }

    /// Appends the text of the rope to `out`, leaf by leaf from the left.
    pub fn rec_display(&self, out: &mut String)
        ensures
            final(out)@ == old(out)@ + self@,
        decreases self,
    {
        match self {
            Rope::Node(rn) => {
                rn.left.rec_display(out);
                rn.right.rec_display(out);
            },
            Rope::Leaf(s) => {
                out.append(s.as_str());
            },
        }
    }

    /// The text of the rope as one string.
    pub fn render(&self) -> (s: String)
        ensures
            s@ == self@,
    {
        let mut out = String::new();
        self.rec_display(&mut out);
        out
    }

    /// The rope with the text of `s` put in at position `i`; behind the end
    /// where `i` is past it.
    pub fn insert(self, i: usize, s: Rope) -> (r: Rope)
        requires
            self.wf(),
            s.wf(),
            self@.len() + s@.len() <= usize::MAX,
        ensures
            r.wf(),
            r@ == self@.take(min(i as int, self@.len() as int)) + s@ + self@.skip(
                min(i as int, self@.len() as int),
            ),
            self.compact() && s.compact() && s@.len() > 0 ==> r.compact(),
    {
        let (left, rest) = self.split(i);
        let res = left.concat(s);
        match rest {
            None => res,
            Some(x) => res.concat(x),
        }
    }

    /// The rope without the characters at positions `i` to `j`, both
    /// included. What of that range lies past the end is ignored.
    pub fn delete(self, i: usize, j: usize) -> (r: Rope)
        requires
            self.wf(),
            i <= j,
            j - i < usize::MAX,
        ensures
            r.wf(),
            r@ == self@.take(min(i as int, self@.len() as int)) + self@.skip(
                min(j + 1, self@.len() as int),
            ),
            self.compact() ==> r.compact(),
    {
        let ghost text = self@;
        let (left, rest) = self.split(i);
        match rest {
            None => {
                proof {
                    assert(text.skip(min(j + 1, text.len() as int)) == Seq::<char>::empty());
                }
                left
            },
            Some(x) => {
                let ghost tail = x@;
                let (_, kept) = x.split(j - i + 1);
                proof {
                    let at = min(j - i + 1, tail.len() as int);
                    assert(tail.skip(at) == text.skip(min(j + 1, text.len() as int)));
                }
                match kept {
                    None => left,
                    Some(p) => left.concat(p),
                }
            },
        }
    }
}

/// A rope built by concatenating ropes in order holds their texts in the
/// same order.
pub proof fn lemma_fold_text(v: Seq<Rope>)
    requires
        v.len() > 0,
    ensures
        Rope::spec_fold(v) matches Some(r) && r@ == joined(v),
    decreases v.len(),
{
    if v.len() == 1 {
        assert(v.drop_last().len() == 0);
        assert(joined(v) == joined(v.drop_last()) + v.last()@);
    } else {
        lemma_fold_text(v.drop_last());
    }
}

/// The size of a well-formed rope is the length of its text.
pub proof fn lemma_size_is_text_len(r: Rope)
    requires
        r.wf(),
    ensures
        r.spec_size() == r@.len(),
{
}

/// Joining one more rope adds its text at the end.
pub proof fn lemma_joined_push(v: Seq<Rope>, r: Rope)
    ensures
        joined(v.push(r)) == joined(v) + r@,
{
    assert(v.push(r).drop_last() == v);
}

/// A prefix of `v` joins to no more text than `v` does.
pub proof fn lemma_joined_prefix(v: Seq<Rope>, k: int)
    requires
        0 <= k <= v.len(),
    ensures
        joined(v.take(k)).len() <= joined(v).len(),
    decreases v.len(),
{
    if k < v.len() {
        lemma_joined_prefix(v.drop_last(), k);
        assert(v.drop_last().take(k) == v.take(k));
    } else {
        assert(v.take(k) == v);
    }
}

/// A mutable handle on one rope. The slot is empty only while an operation
/// has taken the rope out to build its successor.
pub struct FString {
    rope: Option<Rope>,
}

impl FString {
    /// The text of the rope in the slot.
    pub closed spec fn view(&self) -> Seq<char> {
        self.rope.unwrap()@
    }

    /// The slot holds a well-formed rope.
    pub closed spec fn wf(&self) -> bool {
        self.rope matches Some(r) && r.wf()
    }

    /// Whether a cut at `i` leaves a right part: `Rope::has_rest` of the
    /// rope in the slot.
    pub closed spec fn has_rest(&self, i: usize) -> bool {
        self.rope.unwrap().has_rest(i)
    }

    /// The rope in the slot is compact: no node of it has a right child
    /// without text.
    pub closed spec fn compact(&self) -> bool {
        self.rope.unwrap().compact()
    }

    /// A cut before the end always leaves a right part, and one past the
    /// end never does. At the end itself a compact rope leaves none.
    pub proof fn lemma_has_rest(self, i: usize)
        ensures
            i < self@.len() ==> self.has_rest(i),
            i > self@.len() ==> !self.has_rest(i),
            self.compact() ==> (self.has_rest(i) <==> i < self@.len()),
    {
        if self.compact() {
            self.rope.unwrap().lemma_compact_rest(i);
        }
    }

    /// A handle on a rope of one leaf that holds `s`.
    pub fn new(s: String) -> (r: FString)
        requires
            s@.len() <= usize::MAX,
        ensures
            r@ == s@,
            r.wf(),
            r.compact(),
    {
        FString { rope: Some(Rope::new(s)) }
    }

    /// Puts the text of `other` behind the text of `self`.
    pub fn concat(&mut self, other: FString)
        requires
            old(self).wf(),
            other.wf(),
            old(self)@.len() + other@.len() <= usize::MAX,
        ensures
            final(self).wf(),
            final(self)@ == old(self)@ + other@,
            old(self).compact() && other.compact() && other@.len() > 0 ==> final(self).compact(),
    {
        let current = self.rope.take().unwrap();
        self.rope = Some(current.concat(other.rope.unwrap()));
    }

    /// The character at position `i`, if the text is that long.
    pub fn nth(&self, i: usize) -> (c: Option<char>)
        requires
            self.wf(),
        ensures
            c == (if i < self@.len() {
                Some(self@[i as int])
            } else {
                None
            }),
    {
        self.rope.as_ref().unwrap().nth(i)
    }

    /// The number of characters.
    pub fn size(&self) -> (n: usize)
        requires
            self.wf(),
        ensures
            n == self@.len(),
    {
        self.rope.as_ref().unwrap().size()
    }

    /// Keeps the first `i` characters in `self` and returns the rest, which
    /// is absent where `has_rest` is false.
    pub fn split(&mut self, i: usize) -> (rest: Option<FString>)
        requires
            old(self).wf(),
        ensures
            final(self).wf(),
            final(self)@ == old(self)@.take(min(i as int, old(self)@.len() as int)),
            rest is Some <==> old(self).has_rest(i),
            rest matches Some(r) ==> r.wf() && r@ == old(self)@.skip(
                min(i as int, old(self)@.len() as int),
            ),
            old(self).compact() ==> final(self).compact() && (rest is Some <==> i < old(
                self,
            )@.len()),
            old(self).compact() ==> (rest matches Some(r) ==> r.compact()),
    {
        let current = self.rope.take().unwrap();
        let (left, right) = current.split(i);
        self.rope = Some(left);
        match right {
            None => None,
            Some(x) => Some(FString { rope: Some(x) }),
        }
    }

    /// Puts the text of `s` in at position `i`; behind the end where `i` is
    /// past it.
    pub fn insert(&mut self, i: usize, s: FString)
        requires
            old(self).wf(),
            s.wf(),
            old(self)@.len() + s@.len() <= usize::MAX,
        ensures
            final(self).wf(),
            final(self)@ == old(self)@.take(min(i as int, old(self)@.len() as int)) + s@ + old(
                self,
            )@.skip(min(i as int, old(self)@.len() as int)),
            old(self).compact() && s.compact() && s@.len() > 0 ==> final(self).compact(),
    {
        let current = self.rope.take().unwrap();
        self.rope = Some(current.insert(i, s.rope.unwrap()));
    }

    /// Puts `s` in at position `i`; behind the end where `i` is past it.
    pub fn insert_string(&mut self, i: usize, s: String)
        requires
            old(self).wf(),
            old(self)@.len() + s@.len() <= usize::MAX,
        ensures
            final(self).wf(),
            final(self)@ == old(self)@.take(min(i as int, old(self)@.len() as int)) + s@ + old(
                self,
            )@.skip(min(i as int, old(self)@.len() as int)),
            old(self).compact() && s@.len() > 0 ==> final(self).compact(),
    {
        let current = self.rope.take().unwrap();
        self.rope = Some(current.insert(i, Rope::new(s)));
    }

    /// Removes the characters at positions `i` to `j`, both included. What
    /// of that range lies past the end is ignored.
    pub fn delete(&mut self, i: usize, j: usize)
        requires
            old(self).wf(),
            i <= j,
            j - i < usize::MAX,
        ensures
            final(self).wf(),
            final(self)@ == old(self)@.take(min(i as int, old(self)@.len() as int)) + old(
                self,
            )@.skip(min(j + 1, old(self)@.len() as int)),
            old(self).compact() ==> final(self).compact(),
    {
        let current = self.rope.take().unwrap();
        self.rope = Some(current.delete(i, j));
    }

    /// The text as one string.
    pub fn render(&self) -> (s: String)
        requires
            self.wf(),
        ensures
            s@ == self@,
    {
        self.rope.as_ref().unwrap().render()
    }
}

} // verus!
