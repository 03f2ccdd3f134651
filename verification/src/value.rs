//! Values that can be copied and compared, exactly.

use crate::text::str_eq;
use vstd::prelude::*;

verus! {

/// A value whose copies and whose equality go by what it holds.
pub trait Value: DeepView + Sized {
    fn copy(&self) -> (r: Self)
        ensures
            r.deep_view() == self.deep_view(),
    ;

    fn same(&self, other: &Self) -> (r: bool)
        ensures
            r == (self.deep_view() == other.deep_view()),
    ;
}

impl Value for () {
    fn copy(&self) -> (r: Self) {
    }

    fn same(&self, other: &Self) -> (r: bool) {
        true
    }
}

impl Value for bool {
    fn copy(&self) -> (r: Self) {
        *self
    }

    fn same(&self, other: &Self) -> (r: bool) {
        *self == *other
    }
}

impl Value for u32 {
    fn copy(&self) -> (r: Self) {
        *self
    }

    fn same(&self, other: &Self) -> (r: bool) {
        *self == *other
    }
}

impl Value for u64 {
    fn copy(&self) -> (r: Self) {
        *self
    }

    fn same(&self, other: &Self) -> (r: bool) {
        *self == *other
    }
}

impl Value for usize {
    fn copy(&self) -> (r: Self) {
        *self
    }

    fn same(&self, other: &Self) -> (r: bool) {
        *self == *other
    }
}

impl Value for i64 {
    fn copy(&self) -> (r: Self) {
        *self
    }

    fn same(&self, other: &Self) -> (r: bool) {
        *self == *other
    }
}

impl Value for String {
    fn copy(&self) -> (r: Self) {
        self.clone()
    }

    fn same(&self, other: &Self) -> (r: bool) {
        str_eq(self.as_str(), other.as_str())
    }
}

impl<T: Value> Value for Option<T> {
    fn copy(&self) -> (r: Self) {
        match self {
            Some(x) => Some(x.copy()),
            None => None,
        }
    }

    fn same(&self, other: &Self) -> (r: bool) {
        match (self, other) {
            (Some(x), Some(y)) => x.same(y),
            (None, None) => true,
            _ => false,
        }
    }
}

impl<T: Value> Value for Vec<T> {
    fn copy(&self) -> (r: Self) {
        let mut out: Vec<T> = Vec::new();
        let mut i: usize = 0;
        while i < self.len()
            invariant
                i <= self@.len(),
                out@.len() == i,
                forall|j: int|
                    0 <= j < i ==> (#[trigger] out@[j]).deep_view() == self@[j].deep_view(),
            decreases self.len() - i,
        {
            out.push(self[i].copy());
            i += 1;
        }
        assert(out.deep_view() =~= self.deep_view());
        out
    }

    fn same(&self, other: &Self) -> (r: bool) {
        if self.len() != other.len() {
            assert(self.deep_view().len() != other.deep_view().len());
            return false;
        }
        let mut i: usize = 0;
        while i < self.len()
            invariant
                i <= self@.len(),
                self@.len() == other@.len(),
                forall|j: int|
                    0 <= j < i ==> (#[trigger] self@[j]).deep_view() == other@[j].deep_view(),
            decreases self.len() - i,
        {
            if !self[i].same(&other[i]) {
                assert(self.deep_view()[i as int] != other.deep_view()[i as int]);
                return false;
            }
            i += 1;
        }
        assert(self.deep_view() =~= other.deep_view());
        true
    }
}

impl<A: Value, B: Value> Value for (A, B) {
    fn copy(&self) -> (r: Self) {
        (self.0.copy(), self.1.copy())
    }

    fn same(&self, other: &Self) -> (r: bool) {
        self.0.same(&other.0) && self.1.same(&other.1)
    }
}

/// Appends a value to a list.
pub fn push_to<T: DeepView>(list: &mut Vec<T>, item: T)
    ensures
        final(list).deep_view() == old(list).deep_view().push(item.deep_view()),
{
    let ghost before = list.deep_view();
    list.push(item);
    assert(list.deep_view() =~= before.push(item.deep_view()));
}

/// Appends the values of a list to another.
pub fn append<T: Value>(all: &mut Vec<T>, more: &Vec<T>)
    ensures
        final(all).deep_view() == old(all).deep_view() + more.deep_view(),
{
    let ghost before = all.deep_view();
    let ghost added = more.deep_view();
    let mut i: usize = 0;
    assert(before + added.take(0) =~= before);
    while i < more.len()
        invariant
            i <= more@.len(),
            added == more.deep_view(),
            all.deep_view() == before + added.take(i as int),
        decreases more.len() - i,
    {
        let ghost partial = all.deep_view();
        all.push(more[i].copy());
        proof {
            assert(all.deep_view() =~= partial.push(added[i as int]));
            assert(before + added.take(i + 1) =~= partial.push(added[i as int]));
        }
        i += 1;
    }
    assert(added.take(i as int) =~= added);
}

} // verus!
