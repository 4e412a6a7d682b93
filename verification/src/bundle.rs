//! The bundle protocol: the ordered list of component values supplied when
//! creating an entity.
//!
//! A bundle carries, per component, the type's descriptor and the byte
//! representation of one value. Ownership of the bytes moves into the bundle
//! and later into a column store; nothing is torn down twice. The ordered
//! list of component types is the archetype signature the entity will live
//! under.

use vstd::prelude::*;

use crate::store::ItemType;

verus! {

/// An ordered list of concrete component values, each as its type descriptor
/// plus one value's byte representation.
pub struct Bundle {
    types: Vec<ItemType>,
    data: Vec<Vec<u8>>,
}

impl Bundle {
    /// The ordered component-type signature of the bundle.
    pub closed spec fn type_seq(self) -> Seq<ItemType> {
        self.types@
    }

    /// The bytes of the `i`-th component value.
    pub closed spec fn value_at(self, i: int) -> Seq<u8> {
        self.data@[i]@
    }

    /// One value stands behind each listed type.
    pub closed spec fn sized_ok(self) -> bool {
        self.data@.len() == self.types@.len()
    }

    /// Some component of the bundle has the type with identity `t`.
    pub open spec fn has_type(self, t: u64) -> bool {
        exists|i: int| 0 <= i < self.type_seq().len() && (#[trigger] self.type_seq()[i]).id == t
    }

    /// Component types occur once each, and every value's bytes match its
    /// type's size.
    pub open spec fn wf(self) -> bool {
        &&& self.sized_ok()
        &&& forall|a: int, b: int|
            0 <= a < b < self.type_seq().len() ==> (#[trigger] self.type_seq()[a]).id
                != (#[trigger] self.type_seq()[b]).id
        &&& forall|i: int|
            0 <= i < self.type_seq().len() ==> (#[trigger] self.value_at(i)).len()
                == self.type_seq()[i].size
    }

    /// A bundle with no component.
    pub fn new() -> (r: Bundle)
        ensures
            r.wf(),
            r.type_seq() == Seq::<ItemType>::empty(),
    {
        Bundle { types: Vec::new(), data: Vec::new() }
    }

    /// Whether the bundle already carries a component of the type with
    /// identity `t` (what `push` demands be false of its type's identity).
    pub fn contains_type(&self, t: u64) -> (r: bool)
        ensures
            r == self.has_type(t),
    {
        let n = self.types.len();
        for i in 0..n
            invariant
                n == self.types@.len(),
                forall|q: int| 0 <= q < i ==> (#[trigger] self.types@[q]).id != t,
        {
            if self.types[i].id == t {
                proof {
                    assert(self.type_seq()[i as int].id == t);
                }
                return true;
            }
        }
        proof {
            assert(!self.has_type(t)) by {
                assert(forall|q: int|
                    0 <= q < self.type_seq().len() ==> (#[trigger] self.type_seq()[q]).id != t);
            }
        }
        false
    }

    /// Append one component value, taking ownership of its bytes.
    pub fn push(&mut self, typ: ItemType, bytes: Vec<u8>)
        requires
            old(self).wf(),
            !old(self).has_type(typ.id),
            bytes@.len() == typ.size,
        ensures
            final(self).wf(),
            final(self).type_seq() == old(self).type_seq().push(typ),
            forall|i: int|
                0 <= i < old(self).type_seq().len() ==> final(self).value_at(i) == old(
                    self,
                ).value_at(i),
            final(self).value_at(old(self).type_seq().len() as int) == bytes@,
    {
        self.types.push(typ);
        self.data.push(bytes);
        proof {
            assert forall|a: int, b: int|
                0 <= a < b < self.type_seq().len() implies (#[trigger] self.type_seq()[a]).id
                != (#[trigger] self.type_seq()[b]).id by {
                assert(self.type_seq()[a] == old(self).type_seq()[a]);
                if b < self.type_seq().len() - 1 {
                    assert(self.type_seq()[b] == old(self).type_seq()[b]);
                } else {
                    assert(self.type_seq()[b] == typ);
                    assert(!(old(self).type_seq()[a].id == typ.id));
                }
            }
            assert forall|i: int|
                0 <= i < self.type_seq().len() implies (#[trigger] self.value_at(i)).len()
                == self.type_seq()[i].size by {
                if i < self.type_seq().len() - 1 {
                    assert(self.value_at(i) == old(self).value_at(i));
                    assert(self.type_seq()[i] == old(self).type_seq()[i]);
                }
            }
        }
    }

    /// How many components the bundle carries.
    pub fn len(&self) -> (r: usize)
        ensures
            r == self.type_seq().len(),
    {
        self.types.len()
    }

    /// The ordered component-type signature.
    pub fn types(&self) -> (r: &Vec<ItemType>)
        ensures
            r@ == self.type_seq(),
    {
        &self.types
    }

    /// The descriptor of the `i`-th component's type.
    pub fn type_at(&self, i: usize) -> (r: ItemType)
        requires
            (i as int) < self.type_seq().len(),
        ensures
            r == self.type_seq()[i as int],
    {
        self.types[i]
    }

    /// The bytes of the `i`-th component value.
    pub fn value(&self, i: usize) -> (r: &Vec<u8>)
        requires
            self.sized_ok(),
            (i as int) < self.type_seq().len(),
        ensures
            r@ == self.value_at(i as int),
    {
        &self.data[i]
    }
}

} // verus!
