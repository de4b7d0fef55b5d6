use vstd::prelude::*;

verus! {

/// A mark on an AST node or component.
#[derive(PartialEq, Eq, Structural, Clone, Copy)]
pub enum Attribute {
    /// Not present in user source.
    Generated,
    /// A main accelerator kernel, for which an address generator should be
    /// made (see [`crate::backend::agen`]).
    Kernel,
}

impl Attribute {
    /// The bit that stands for this attribute in an [`Attributes`] bitmap:
    /// `1` shifted by the attribute's tag (`1` for `Generated`, `2` for
    /// `Kernel`).
    pub open spec fn spec_bit(self) -> u16 {
        match self {
            Attribute::Generated => 2,
            Attribute::Kernel => 4,
        }
    }

    pub fn bit(&self) -> (result: u16)
        ensures
            result == self.spec_bit(),
    {
        assert(1u16 << 1u16 == 2u16 && 1u16 << 2u16 == 4u16) by (bit_vector);
        match self {
            Attribute::Generated => 1u16 << 1u16,
            Attribute::Kernel => 1u16 << 2u16,
        }
    }
}

/// A set of [`Attribute`]s, stored as a bitmap.
#[derive(PartialEq, Eq, Structural, Clone, Copy)]
pub struct Attributes {
    bitmap: u16,
}

impl Default for Attributes {
    /// The empty set (see [`Attributes::empty`]).
    fn default() -> (result: Self)
        ensures
            forall|a: Attribute| !result.contains(a),
    {
        Attributes::empty()
    }
}

impl Attributes {
    /// Whether `attr` is in this set.
    pub closed spec fn contains(&self, attr: Attribute) -> bool {
        self.bitmap & attr.spec_bit() != 0
    }

    /// The empty set.
    pub fn empty() -> (result: Self)
        ensures
            forall|a: Attribute| !result.contains(a),
    {
        let result = Attributes { bitmap: 0 };
        assert forall|a: Attribute| !result.contains(a) by {
            let b = a.spec_bit();
            assert(0u16 & b == 0) by (bit_vector);
        }
        result
    }

    /// Adds `attr` to the set; no other attribute is added or removed.
    pub fn add(&mut self, attr: Attribute)
        ensures
            final(self).contains(attr),
            forall|a: Attribute| a != attr ==> final(self).contains(a) == old(self).contains(a),
    {
        let bit = attr.bit();
        let old_bitmap = self.bitmap;
        self.bitmap = self.bitmap | bit;
        proof {
            let x = old_bitmap;
            assert((x | 2u16) & 2u16 != 0 && (x | 4u16) & 4u16 != 0) by (bit_vector);
            assert((x | 2u16) & 4u16 == x & 4u16 && (x | 4u16) & 2u16 == x & 2u16) by (bit_vector);
        }
    }

    /// The set with `attr` added.
    pub fn with(self, attr: Attribute) -> (result: Self)
        ensures
            result.contains(attr),
            forall|a: Attribute| a != attr ==> result.contains(a) == self.contains(a),
    {
        let mut result = self;
        result.add(attr);
        result
    }

    /// Whether the set holds `attr`.
    pub fn has(&self, attr: Attribute) -> (result: bool)
        ensures
            result == self.contains(attr),
    {
        self.bitmap & attr.bit() != 0
    }

    /// The set of the attributes in `attrs`.
    pub fn from_attrs(attrs: &Vec<Attribute>) -> (result: Self)
        ensures
            forall|a: Attribute| result.contains(a) <==> attrs@.contains(a),
    {
        let mut result = Attributes::empty();
        let n = attrs.len();
        let mut i: usize = 0;
        while i < n
            invariant
                0 <= i <= n,
                n == attrs@.len(),
                forall|a: Attribute| result.contains(a) <==> attrs@.subrange(0, i as int).contains(a),
            decreases n - i,
        {
            let ghost prefix = attrs@.subrange(0, i as int);
            result.add(attrs[i]);
            proof {
                assert(attrs@.subrange(0, i + 1) =~= prefix.push(attrs@[i as int]));
                assert forall|a: Attribute|
                    result.contains(a) <==> attrs@.subrange(0, i + 1).contains(a) by {
                    if a == attrs@[i as int] {
                        assert(attrs@.subrange(0, i + 1)[i as int] == a);
                    } else if prefix.contains(a) {
                        let k = choose|k: int| 0 <= k < prefix.len() && prefix[k] == a;
                        assert(attrs@.subrange(0, i + 1)[k] == a);
                    } else if attrs@.subrange(0, i + 1).contains(a) {
                        let k = choose|k: int| 0 <= k < i + 1 && #[trigger] attrs@.subrange(0, i + 1)[k] == a;
                        assert(prefix[k] == a);
                    }
                }
            }
            i = i + 1;
        }
        proof {
            assert(attrs@.subrange(0, n as int) =~= attrs@);
        }
        result
    }
}

} // verus!
