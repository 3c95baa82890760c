//! Stored values.
use std::collections::VecDeque;
use vstd::prelude::*;

use crate::bytemap::{
    bound, distinct_keys, has_key, lemma_mapped, mapped, position, unbound, value_of, ByteMap,
};
use crate::sums::{lemma_total_take_next, total};

verus! {

/// Per-element bookkeeping estimate for collection types (map/list/set node).
pub const ELEM_OVERHEAD: usize = 24;

/// A stored value.
pub enum Value {
    Str(Vec<u8>),
    Hash(ByteMap<Vec<u8>>),
    List(VecDeque<Vec<u8>>),
    Members(ByteMap<()>),
}

/// What a stored value holds. The fields of a hash and the members of a set
/// are distinct and stand in the order in which they are stored.
#[verifier::ext_equal]
pub enum ValueView {
    Str(Seq<u8>),
    Hash(Seq<(Seq<u8>, Seq<u8>)>),
    List(Seq<Seq<u8>>),
    Members(Seq<(Seq<u8>, ())>),
}

/// The fields and values of a hash.
pub open spec fn pairs_view(s: Seq<(Seq<u8>, Vec<u8>)>) -> Seq<(Seq<u8>, Seq<u8>)> {
    mapped(s, |v: Vec<u8>| v@)
}

/// The items of a list.
pub open spec fn items_view(s: Seq<Vec<u8>>) -> Seq<Seq<u8>> {
    s.map_values(|e: Vec<u8>| e@)
}

/// The accounted size of each field of a hash.
pub open spec fn pair_sizes(s: Seq<(Seq<u8>, Seq<u8>)>) -> Seq<nat> {
    s.map_values(|e: (Seq<u8>, Seq<u8>)| e.0.len() + e.1.len() + ELEM_OVERHEAD as nat)
}

/// The accounted size of each item of a list.
pub open spec fn item_sizes(s: Seq<Seq<u8>>) -> Seq<nat> {
    s.map_values(|e: Seq<u8>| e.len() + ELEM_OVERHEAD as nat)
}

/// The accounted size of each member of a set.
pub open spec fn member_sizes(s: Seq<(Seq<u8>, ())>) -> Seq<nat> {
    s.map_values(|e: (Seq<u8>, ())| e.0.len() + ELEM_OVERHEAD as nat)
}

impl ValueView {
    /// Payload bytes plus the per-element overhead.
    pub open spec fn bytes(self) -> nat {
        match self {
            ValueView::Str(v) => v.len(),
            ValueView::Hash(h) => total(pair_sizes(h)),
            ValueView::List(l) => total(item_sizes(l)),
            ValueView::Members(s) => total(member_sizes(s)),
        }
    }

    /// The number of elements; for a string, of bytes.
    pub open spec fn count(self) -> nat {
        match self {
            ValueView::Str(v) => v.len(),
            ValueView::Hash(h) => h.len(),
            ValueView::List(l) => l.len(),
            ValueView::Members(s) => s.len(),
        }
    }

    /// The name of the value's type.
    pub open spec fn kind_name(self) -> Seq<char> {
        match self {
            ValueView::Str(_) => "string"@,
            ValueView::Hash(_) => "hash"@,
            ValueView::List(_) => "list"@,
            ValueView::Members(_) => "set"@,
        }
    }

    /// A collection that holds no elements.
    pub open spec fn empty_collection(self) -> bool {
        !(self is Str) && self.count() == 0
    }

    /// Fields and members are distinct.
    pub open spec fn wf(self) -> bool {
        match self {
            ValueView::Hash(h) => distinct_keys(h),
            ValueView::Members(s) => distinct_keys(s),
            _ => true,
        }
    }
}

impl View for Value {
    type V = ValueView;

    open spec fn view(&self) -> ValueView {
        match self {
            Value::Str(v) => ValueView::Str(v@),
            Value::Hash(h) => ValueView::Hash(pairs_view(h@)),
            Value::List(l) => ValueView::List(items_view(l@)),
            Value::Members(s) => ValueView::Members(s@),
        }
    }
}

/// Viewing the values of a hash as sequences commutes with the map operations.
pub proof fn lemma_pairs_view(s: Seq<(Seq<u8>, Vec<u8>)>, key: Seq<u8>, value: Vec<u8>)
    ensures
        position(pairs_view(s), key) == position(s, key),
        has_key(pairs_view(s), key) == has_key(s, key),
        pairs_view(bound(s, key, value)) == bound(pairs_view(s), key, value@),
        pairs_view(unbound(s, key)) == unbound(pairs_view(s), key),
        distinct_keys(pairs_view(s)) == distinct_keys(s),
        value_of(pairs_view(s), key) == (match value_of(s, key) {
            Some(v) => Some(v@),
            None => None,
        }),
{
    lemma_mapped(s, key, value, |v: Vec<u8>| v@);
}

impl Value {
    /// The tables inside the value are in order.
    pub open spec fn wf(&self) -> bool {
        match self {
            Value::Hash(h) => h.wf(),
            Value::Members(s) => s.wf(),
            _ => true,
        }
    }

    /// The view of a well-formed value has distinct fields and members.
    pub proof fn lemma_wf(&self)
        requires
            self.wf(),
        ensures
            self@.wf(),
    {
        match self {
            Value::Hash(h) => {
                h.lemma_wf();
                lemma_pairs_view(h@, seq![], arbitrary());
            },
            Value::Members(s) => {
                s.lemma_wf();
            },
            _ => {},
        }
    }

    /// Approximate heap bytes held by this value (payload + per-element overhead).
    pub fn mem_size(&self) -> (r: usize)
        requires
            self@.bytes() <= usize::MAX,
        ensures
            r == self@.bytes(),
    {
        match self {
            Value::Str(v) => v.len(),
            Value::Hash(h) => {
                let ghost sizes = pair_sizes(pairs_view(h@));
                let mut sum: usize = 0;
                let mut i: usize = 0;
                assert(sizes.take(0) =~= seq![]);
                while i < h.len()
                    invariant
                        i <= h@.len(),
                        sizes == pair_sizes(pairs_view(h@)),
                        total(sizes) <= usize::MAX,
                        sum == total(sizes.take(i as int)),
                    decreases h@.len() - i,
                {
                    proof {
                        lemma_total_take_next(sizes, i as int);
                    }
                    sum = sum + (h.key_at(i).len() + h.value_at(i).len() + ELEM_OVERHEAD);
                    i += 1;
                }
                assert(sizes.take(i as int) =~= sizes);
                sum
            },
            Value::List(l) => {
                let ghost sizes = item_sizes(items_view(l@));
                let mut sum: usize = 0;
                let mut i: usize = 0;
                assert(sizes.take(0) =~= seq![]);
                while i < l.len()
                    invariant
                        i <= l@.len(),
                        sizes == item_sizes(items_view(l@)),
                        total(sizes) <= usize::MAX,
                        sum == total(sizes.take(i as int)),
                    decreases l@.len() - i,
                {
                    proof {
                        lemma_total_take_next(sizes, i as int);
                    }
                    sum = sum + (l[i].len() + ELEM_OVERHEAD);
                    i += 1;
                }
                assert(sizes.take(i as int) =~= sizes);
                sum
            },
            Value::Members(s) => {
                let ghost sizes = member_sizes(s@);
                let mut sum: usize = 0;
                let mut i: usize = 0;
                assert(sizes.take(0) =~= seq![]);
                while i < s.len()
                    invariant
                        i <= s@.len(),
                        sizes == member_sizes(s@),
                        total(sizes) <= usize::MAX,
                        sum == total(sizes.take(i as int)),
                    decreases s@.len() - i,
                {
                    proof {
                        lemma_total_take_next(sizes, i as int);
                    }
                    sum = sum + (s.key_at(i).len() + ELEM_OVERHEAD);
                    i += 1;
                }
                assert(sizes.take(i as int) =~= sizes);
                sum
            },
        }
    }

    /// The name of the value's type.
    pub fn kind_name(&self) -> (r: &'static str)
        ensures
            r@ == self@.kind_name(),
    {
        match self {
            Value::Str(_) => "string",
            Value::Hash(_) => "hash",
            Value::List(_) => "list",
            Value::Members(_) => "set",
        }
    }

    /// Element count (for display); for strings this is the byte length.
    pub fn cardinality(&self) -> (r: usize)
        ensures
            r == self@.count(),
    {
        match self {
            Value::Str(v) => v.len(),
            Value::Hash(h) => h.len(),
            Value::List(l) => l.len(),
            Value::Members(s) => s.len(),
        }
    }

    /// True for a collection that holds no elements.
    pub fn is_empty_collection(&self) -> (r: bool)
        ensures
            r == self@.empty_collection(),
    {
        match self {
            Value::Str(_) => false,
            Value::Hash(h) => h.is_empty(),
            Value::List(l) => l.len() == 0,
            Value::Members(s) => s.is_empty(),
        }
    }
}

} // verus!
