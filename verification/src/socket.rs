//! The socket model: socket identifiers, socket shapes and their
//! compatibility relation, and the sorted-unique collections built over them.
//!
//! The collections ([`SocketSet`], [`OutputMask`], [`SocketValues`]) share
//! one invariant: their elements are strictly ascending by socket id. The
//! invariant is checked once, at construction, and every lookup afterwards
//! is a binary search that relies on it.

use vstd::prelude::*;

use crate::node::NodeId;
use crate::value::Value;

verus! {

/// An identifier for a socket belonging to one side of a node.
///
/// The inputs and the outputs of a node are independent identifier
/// namespaces; an input id and an output id never refer to the same socket.
#[derive(Clone, Copy, PartialEq, Eq, Structural, Hash, Debug)]
pub struct SocketId(pub u16);

/// An identifier for the kind of data a socket carries.
///
/// The engine never looks inside a value; applications pick one code per
/// payload type and compare codes when they want to validate a connection.
#[derive(Clone, Copy, PartialEq, Eq, Structural, Hash, Debug)]
pub struct ValueTypeId(pub u64);

/// The connection cardinality a socket tolerates.
#[derive(Clone, Copy, PartialEq, Eq, Structural, Hash, Debug)]
pub enum SocketShape {
    /// The socket cannot take part in any connection.
    Disabled,

    /// The socket accepts zero or one connection.
    Optional,

    /// The socket requires exactly one connection.
    ExactlyOne,

    /// The socket requires one or more connections.
    AtLeastOne,

    /// The socket accepts any number of connections.
    Unlimited,
}

impl SocketShape {
    /// The directed compatibility relation between a producer shape and a
    /// consumer shape, written out exhaustively: `Disabled` fits nothing and
    /// accepts nothing, everything else fits into `Unlimited`, `Optional`
    /// fits only `Optional` and `Unlimited`, `ExactlyOne` and `AtLeastOne`
    /// fit into `Optional`, `ExactlyOne` and `AtLeastOne`, and `Unlimited`
    /// fits only `Unlimited`.
    pub open spec fn spec_fits_into(self, other: Self) -> bool {
        match (self, other) {
            (SocketShape::Disabled, _) => false,
            (_, SocketShape::Disabled) => false,
            (_, SocketShape::Unlimited) => true,
            (SocketShape::Optional, SocketShape::Optional) => true,
            (SocketShape::Optional, SocketShape::ExactlyOne) => false,
            (SocketShape::Optional, SocketShape::AtLeastOne) => false,
            (SocketShape::ExactlyOne, SocketShape::Optional) => true,
            (SocketShape::ExactlyOne, SocketShape::ExactlyOne) => true,
            (SocketShape::ExactlyOne, SocketShape::AtLeastOne) => true,
            (SocketShape::AtLeastOne, SocketShape::Optional) => true,
            (SocketShape::AtLeastOne, SocketShape::ExactlyOne) => true,
            (SocketShape::AtLeastOne, SocketShape::AtLeastOne) => true,
            (SocketShape::Unlimited, SocketShape::Optional) => false,
            (SocketShape::Unlimited, SocketShape::ExactlyOne) => false,
            (SocketShape::Unlimited, SocketShape::AtLeastOne) => false,
        }
    }

    /// Returns `true` if a producer socket of shape `self` may be connected
    /// to a consumer socket of shape `other`.
    pub fn fits_into(&self, other: &Self) -> (r: bool)
        ensures
            r == self.spec_fits_into(*other),
    {
        match (self, other) {
            (SocketShape::Disabled, _) => false,
            (_, SocketShape::Disabled) => false,
            (_, SocketShape::Unlimited) => true,
            (SocketShape::Optional, SocketShape::Optional) => true,
            (SocketShape::Optional, SocketShape::ExactlyOne) => false,
            (SocketShape::Optional, SocketShape::AtLeastOne) => false,
            (SocketShape::ExactlyOne, SocketShape::Optional) => true,
            (SocketShape::ExactlyOne, SocketShape::ExactlyOne) => true,
            (SocketShape::ExactlyOne, SocketShape::AtLeastOne) => true,
            (SocketShape::AtLeastOne, SocketShape::Optional) => true,
            (SocketShape::AtLeastOne, SocketShape::ExactlyOne) => true,
            (SocketShape::AtLeastOne, SocketShape::AtLeastOne) => true,
            (SocketShape::Unlimited, SocketShape::Optional) => false,
            (SocketShape::Unlimited, SocketShape::ExactlyOne) => false,
            (SocketShape::Unlimited, SocketShape::AtLeastOne) => false,
        }
    }
}

/// A socket exposed by a node.
#[derive(Clone, Copy, PartialEq, Eq, Structural, Hash, Debug)]
pub struct SocketRef {
    /// The id of the socket.
    pub id: SocketId,

    /// The shape of the socket.
    pub shape: SocketShape,

    /// The kind of data the socket accepts.
    pub vtype: ValueTypeId,
}

/// An element that is ordered by a socket id, so that it can live in a
/// sorted-unique collection.
pub trait SocketKeyed {
    /// The socket id the element is ordered by.
    spec fn skey(self) -> u16;

    /// Returns the socket id the element is ordered by.
    fn key(&self) -> (k: u16)
        ensures
            k == self.skey(),
    ;
}

impl SocketKeyed for SocketId {
    open spec fn skey(self) -> u16 {
        self.0
    }

    fn key(&self) -> (k: u16) {
        self.0
    }
}

impl SocketKeyed for SocketRef {
    open spec fn skey(self) -> u16 {
        self.id.0
    }

    fn key(&self) -> (k: u16) {
        self.id.0
    }
}

/// Holds when the elements of `s` are strictly ascending by socket id; this
/// also makes the ids pairwise distinct.
pub open spec fn sorted_strict<T: SocketKeyed>(s: Seq<T>) -> bool {
    forall|i: int, j: int|
        0 <= i < j < s.len() ==> #[trigger] s[i].skey() < #[trigger] s[j].skey()
}

/// Holds when every adjacent pair of `s` before position `k` is strictly
/// ascending by socket id.
pub open spec fn adj_sorted_to<T: SocketKeyed>(s: Seq<T>, k: int) -> bool {
    forall|m: int| 0 <= m < k ==> #[trigger] s[m].skey() < s[m + 1].skey()
}

proof fn lemma_chain_ascending<T: SocketKeyed>(s: Seq<T>, i: int, j: int)
    requires
        adj_sorted_to(s, s.len() - 1),
        0 <= i < j < s.len(),
    ensures
        s[i].skey() < s[j].skey(),
    decreases j - i,
{
    if i + 1 < j {
        lemma_chain_ascending(s, i, j - 1);
    }
}

/// Adjacent ascending order implies full strict order.
proof fn lemma_adj_sorted_full<T: SocketKeyed>(s: Seq<T>)
    requires
        adj_sorted_to(s, s.len() - 1),
    ensures
        sorted_strict(s),
{
    assert forall|i: int, j: int| 0 <= i < j < s.len() implies #[trigger] s[i].skey()
        < #[trigger] s[j].skey() by {
        lemma_chain_ascending(s, i, j);
    }
}

/// Holds when `e` is the verdict for the first offending adjacent pair of
/// `s`, scanning left to right: an equal pair is a duplicate, a descending
/// pair an ordering error.
pub open spec fn first_violation<T: SocketKeyed>(s: Seq<T>, e: SortedUniqueSliceError) -> bool {
    exists|k: int|
        {
            &&& 0 <= k < s.len() - 1
            &&& adj_sorted_to(s, k)
            &&& s[k].skey() >= s[k + 1].skey()
            &&& e == (if s[k].skey() == s[k + 1].skey() {
                SortedUniqueSliceError::ContainsDuplicate
            } else {
                SortedUniqueSliceError::ImproperOrdering
            })
        }
}

/// An error met while checking that a slice is sorted and duplicate-free.
#[derive(Clone, Copy, PartialEq, Eq, Structural, Debug)]
pub enum SortedUniqueSliceError {
    /// The elements of the slice were not in ascending order.
    ImproperOrdering,

    /// The slice held two elements with the same id.
    ContainsDuplicate,
}

/// A borrowed slice whose elements are strictly ascending by socket id.
///
/// The order is checked once, when the slice is wrapped; lookups are binary
/// searches over the checked slice.
pub struct SortedUniqueSlice<'a, T> {
    items: &'a [T],
}

impl<'a, T> Clone for SortedUniqueSlice<'a, T> {
    fn clone(&self) -> (r: Self)
        ensures
            r == *self,
    {
        SortedUniqueSlice { items: self.items }
    }
}

impl<'a, T> Copy for SortedUniqueSlice<'a, T> {

}

impl<'a, T> View for SortedUniqueSlice<'a, T> {
    type V = Seq<T>;

    closed spec fn view(&self) -> Seq<T> {
        self.items@
    }
}

impl<'a, T: SocketKeyed> SortedUniqueSlice<'a, T> {
    /// Holds when the wrapped slice is strictly ascending by socket id.
    pub open spec fn wf(self) -> bool {
        sorted_strict(self@)
    }

    /// Wraps `slice`, checking that it is strictly ascending by socket id.
    /// Scanning left to right, the first offending adjacent pair decides the
    /// error: an equal pair is a duplicate, a descending pair an ordering
    /// error.
    pub fn new(slice: &'a [T]) -> (r: Result<Self, SortedUniqueSliceError>)
        ensures
            match r {
                Ok(s) => s@ == slice@ && s.wf(),
                Err(e) => !sorted_strict(slice@) && first_violation(slice@, e),
            },
    {
        let len = slice.len();
        let mut idx: usize = 0;
        while idx + 1 < len
            invariant
                len == slice@.len(),
                idx + 1 <= len || idx == 0,
                adj_sorted_to(slice@, idx as int),
            decreases len - idx,
        {
            let a = slice[idx].key();
            let b = slice[idx + 1].key();
            if a == b {
                proof {
                    let k = idx as int;
                    assert(0 <= k < slice@.len() - 1 && adj_sorted_to(slice@, k) && slice@[k].skey()
                        >= slice@[k + 1].skey());
                    assert(!sorted_strict(slice@));
                }
                return Err(SortedUniqueSliceError::ContainsDuplicate);
            }
            if a > b {
                proof {
                    let k = idx as int;
                    assert(0 <= k < slice@.len() - 1 && adj_sorted_to(slice@, k) && slice@[k].skey()
                        >= slice@[k + 1].skey());
                    assert(!sorted_strict(slice@));
                }
                return Err(SortedUniqueSliceError::ImproperOrdering);
            }
            idx = idx + 1;
        }
        proof {
            assert(adj_sorted_to(slice@, slice@.len() - 1));
            lemma_adj_sorted_full(slice@);
        }
        Ok(SortedUniqueSlice { items: slice })
    }

    /// Finds the element whose socket id is `key`, if the slice holds one,
    /// by binary search.
    pub fn search(&self, key: u16) -> (r: Option<&'a T>)
        requires
            self.wf(),
        ensures
            match r {
                Some(t) => exists|i: int|
                    0 <= i < self@.len() && self@[i] == *t && #[trigger] self@[i].skey() == key,
                None => forall|i: int| 0 <= i < self@.len() ==> #[trigger] self@[i].skey() != key,
            },
    {
        let mut lo: usize = 0;
        let mut hi: usize = self.items.len();
        while lo < hi
            invariant
                self.wf(),
                0 <= lo <= hi <= self@.len(),
                forall|i: int| 0 <= i < lo ==> #[trigger] self@[i].skey() < key,
                forall|i: int| hi <= i < self@.len() ==> #[trigger] self@[i].skey() > key,
            decreases hi - lo,
        {
            let mid = lo + (hi - lo) / 2;
            let k = self.items[mid].key();
            if k < key {
                lo = mid + 1;
            } else if k > key {
                hi = mid;
            } else {
                return Some(&self.items[mid]);
            }
        }
        None
    }

    /// The number of elements in the slice.
    pub fn len(&self) -> (r: usize)
        ensures
            r == self@.len(),
    {
        self.items.len()
    }

    /// The whole slice, in ascending order.
    pub fn as_slice(&self) -> (r: &'a [T])
        ensures
            r@ == self@,
    {
        self.items
    }
}

/// The set of sockets one side of a node exposes, strictly ascending by
/// socket id.
#[derive(Clone, Copy)]
pub struct SocketSet<'a> {
    items: SortedUniqueSlice<'a, SocketRef>,
}

impl<'a> View for SocketSet<'a> {
    type V = Seq<SocketRef>;

    closed spec fn view(&self) -> Seq<SocketRef> {
        self.items@
    }
}

impl<'a> SocketSet<'a> {
    /// Holds when the set is strictly ascending by socket id.
    pub open spec fn wf(self) -> bool {
        sorted_strict(self@)
    }

    /// Wraps `slice` as a socket set, checking that it is strictly ascending
    /// by socket id and free of duplicate ids.
    pub fn new(slice: &'a [SocketRef]) -> (r: Result<Self, SortedUniqueSliceError>)
        ensures
            match r {
                Ok(s) => s@ == slice@ && s.wf(),
                Err(e) => !sorted_strict(slice@) && first_violation(slice@, e),
            },
            r is Ok <==> sorted_strict(slice@),
    {
        match SortedUniqueSlice::new(slice) {
            Ok(s) => Ok(SocketSet { items: s }),
            Err(e) => Err(e),
        }
    }

    /// Returns the socket with id `id`, if the set holds one.
    pub fn get(&self, id: SocketId) -> (r: Option<SocketRef>)
        requires
            self.wf(),
        ensures
            match r {
                Some(t) => exists|i: int|
                    0 <= i < self@.len() && self@[i] == t && #[trigger] self@[i].id == id,
                None => forall|i: int| 0 <= i < self@.len() ==> #[trigger] self@[i].id != id,
            },
    {
        match self.items.search(id.0) {
            Some(t) => Some(*t),
            None => {
                proof {
                    assert forall|i: int| 0 <= i < self@.len() implies #[trigger] self@[i].id
                        != id by {
                        assert(self@[i].skey() != id.0);
                    }
                }
                None
            },
        }
    }

    /// The number of sockets in the set.
    pub fn len(&self) -> (r: usize)
        ensures
            r == self@.len(),
    {
        self.items.len()
    }
}

/// The subset of a node's outputs a caller actually needs, as a
/// sorted-unique slice of socket ids. Letting a node see which outputs are
/// wanted lets it skip computing expensive unused ones.
#[derive(Clone, Copy)]
pub struct OutputMask<'a> {
    items: SortedUniqueSlice<'a, SocketId>,
}

impl<'a> View for OutputMask<'a> {
    type V = Seq<SocketId>;

    closed spec fn view(&self) -> Seq<SocketId> {
        self.items@
    }
}

impl<'a> OutputMask<'a> {
    /// Holds when the mask is strictly ascending by socket id.
    pub open spec fn wf(self) -> bool {
        sorted_strict(self@)
    }

    /// Wraps `slice` as an output mask, checking that it is strictly
    /// ascending and free of duplicates.
    pub fn new(slice: &'a [SocketId]) -> (r: Result<Self, SortedUniqueSliceError>)
        ensures
            match r {
                Ok(s) => s@ == slice@ && s.wf(),
                Err(e) => !sorted_strict(slice@) && first_violation(slice@, e),
            },
            r is Ok <==> sorted_strict(slice@),
    {
        match SortedUniqueSlice::new(slice) {
            Ok(s) => Ok(OutputMask { items: s }),
            Err(e) => Err(e),
        }
    }

    /// Returns `true` if the mask includes the socket id `id`.
    pub fn includes(&self, id: SocketId) -> (r: bool)
        requires
            self.wf(),
        ensures
            r == self@.contains(id),
    {
        match self.items.search(id.0) {
            Some(_) => true,
            None => {
                proof {
                    assert forall|i: int| 0 <= i < self@.len() implies #[trigger] self@[i]
                        != id by {
                        assert(self@[i].skey() != id.0);
                    }
                    assert(!self@.contains(id));
                }
                false
            },
        }
    }

    /// The number of socket ids in the mask.
    pub fn len(&self) -> (r: usize)
        ensures
            r == self@.len(),
    {
        self.items.len()
    }

    /// The socket id at position `i` in ascending order.
    pub fn id_at(&self, i: usize) -> (r: SocketId)
        requires
            i < self@.len(),
        ensures
            r == self@[i as int],
    {
        self.items.as_slice()[i]
    }
}

/// A [`Value`] bound to the socket it flows through.
///
/// For set operations, two socket values compare equal exactly when their
/// socket ids are equal, whatever values they carry.
pub struct SocketValue {
    /// The id of the socket.
    pub id: SocketId,

    /// The value carried by the socket.
    pub value: Value,
}

impl Clone for SocketValue {
    fn clone(&self) -> (r: Self)
        ensures
            r == *self,
    {
        SocketValue { id: self.id, value: self.value.clone() }
    }
}

impl PartialEq for SocketValue {
    fn eq(&self, other: &SocketValue) -> (r: bool) {
        self.id.0 == other.id.0
    }
}

impl vstd::std_specs::cmp::PartialEqSpecImpl for SocketValue {
    open spec fn obeys_eq_spec() -> bool {
        true
    }

    open spec fn eq_spec(&self, other: &SocketValue) -> bool {
        self.id == other.id
    }
}

impl SocketKeyed for SocketValue {
    open spec fn skey(self) -> u16 {
        self.id.0
    }

    fn key(&self) -> (k: u16) {
        self.id.0
    }
}

/// The values flowing through one side of a node, strictly ascending by
/// socket id.
///
/// Unlike the borrowed collections above, `SocketValues` owns its elements:
/// it is assembled by the solve driver and handed across the node boundary.
/// Its order invariant is part of the type, so every well-typed
/// `SocketValues` is sorted and duplicate-free.
pub struct SocketValues {
    items: Vec<SocketValue>,
}

impl View for SocketValues {
    type V = Seq<SocketValue>;

    closed spec fn view(&self) -> Seq<SocketValue> {
        self.items@
    }
}

impl SocketValues {
    /// Holds when the values are strictly ascending by socket id.
    #[verifier::type_invariant]
    spec fn inv(self) -> bool {
        sorted_strict(self@)
    }

    /// Wraps `values`, checking that they are strictly ascending by socket
    /// id and free of duplicate ids. The first offending adjacent pair
    /// decides the error, as for [`SortedUniqueSlice::new`].
    pub fn new(values: Vec<SocketValue>) -> (r: Result<Self, SortedUniqueSliceError>)
        ensures
            match r {
                Ok(s) => s@ == values@,
                Err(e) => !sorted_strict(values@) && first_violation(values@, e),
            },
            r is Ok <==> sorted_strict(values@),
    {
        match SortedUniqueSlice::new(values.as_slice()) {
            Ok(_) => Ok(SocketValues { items: values }),
            Err(e) => Err(e),
        }
    }

    /// Returns the value for socket `id`, if one is present.
    pub fn get(&self, id: SocketId) -> (r: Option<Value>)
        ensures
            match r {
                Some(v) => exists|i: int|
                    0 <= i < self@.len() && self@[i].value == v && #[trigger] self@[i].id == id,
                None => forall|i: int| 0 <= i < self@.len() ==> #[trigger] self@[i].id != id,
            },
    {
        proof {
            use_type_invariant(&*self);
        }
        let slice = SortedUniqueSlice { items: self.items.as_slice() };
        proof {
            assert(slice@ == self@);
        }
        match slice.search(id.0) {
            Some(sv) => Some(sv.value.clone()),
            None => {
                proof {
                    assert forall|i: int| 0 <= i < self@.len() implies #[trigger] self@[i].id
                        != id by {
                        assert(slice@[i].skey() != id.0);
                    }
                }
                None
            },
        }
    }

    /// The number of values held.
    pub fn len(&self) -> (r: usize)
        ensures
            r == self@.len(),
    {
        self.items.len()
    }
}

impl Clone for SocketValues {
    fn clone(&self) -> (r: Self)
        ensures
            r@ == self@,
    {
        proof {
            use_type_invariant(&*self);
        }
        let n = self.items.len();
        let mut items: Vec<SocketValue> = Vec::new();
        let mut i: usize = 0;
        while i < n
            invariant
                n == self@.len(),
                0 <= i <= n,
                items@.len() == i,
                forall|k: int| 0 <= k < i ==> #[trigger] items@[k] == self@[k],
                sorted_strict(self@),
            decreases n - i,
        {
            items.push(self.items[i].clone());
            i = i + 1;
        }
        proof {
            assert(items@ =~= self@);
        }
        SocketValues { items }
    }
}

/// A socket on a particular node.
#[derive(Clone, Copy, PartialEq, Eq, Structural, Hash, Debug)]
pub struct NodeSocketId {
    /// The node the socket belongs to.
    pub node: NodeId,

    /// The socket belonging to the node.
    pub socket: SocketId,
}

/// A pair of socket ids identifying one socket-to-socket connection between
/// an ordered pair of nodes.
#[derive(Clone, Copy, PartialEq, Eq, Structural, Hash, Debug)]
pub struct SocketLinkId {
    /// The output socket on the producing node.
    pub from: SocketId,

    /// The input socket on the consuming node.
    pub to: SocketId,
}

/// A full link: an output socket of one node feeding an input socket of
/// another.
#[derive(Clone, Copy, PartialEq, Eq, Structural, Hash, Debug)]
pub struct NodeLinkId {
    /// The producing side, read as "left's output...".
    pub left: NodeSocketId,

    /// The consuming side, read as "...feeds right's input".
    pub right: NodeSocketId,
}

} // verus!
