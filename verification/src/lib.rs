//! A handle type for values that have been permanently allocated: once a value
//! is leaked, the handle refers to it for the rest of the process, may be
//! copied freely, and behaves exactly like the value itself under equality,
//! ordering and hashing. Growth of the permanent storage is monotonic and is
//! never reclaimed; callers are responsible for using it only for data whose
//! lifetime really is the whole program.
use vstd::prelude::*;

pub mod text;

verus! {

use vstd::std_specs::cmp::{PartialEqSpec, PartialEqSpecImpl, PartialOrdSpec, PartialOrdSpecImpl};
use core::cmp::Ordering;

/// A handle to a value whose storage lives for the rest of the process.
///
/// The referent is immutable, never deallocated, and the handle itself is
/// nothing but the reference: duplicating it never touches the referent.
#[derive(Debug, Hash, Ord)]
pub struct Leak<T: ?Sized + 'static>(&'static T);

/// Relies on Box::leak: returns a reference, valid for the rest of the
/// process, to the boxed value, which is never deallocated.
#[verifier::external_body]
fn leak_box<T: ?Sized>(b: Box<T>) -> (r: &'static T)
    ensures
        r == b,
{
    Box::leak(b)
}

/// Relies on Vec::leak: hands the vector's existing backing allocation over
/// as a slice that is valid for the rest of the process; the elements are
/// unchanged and nothing is copied.
#[verifier::external_body]
fn leak_vec<T>(v: Vec<T>) -> (r: &'static [T])
    ensures
        r@ == v@,
{
    v.leak()
}

/// Relies on String::leak: hands the string's existing backing allocation
/// over as text that is valid for the rest of the process; the contents are
/// unchanged and nothing is copied.
#[verifier::external_body]
fn leak_string(s: String) -> (r: &'static str)
    ensures
        r@ == s@,
{
    s.leak()
}

impl<T: ?Sized> Leak<T> {
    /// The value this handle refers to.
    pub closed spec fn referent(self) -> &'static T {
        self.0
    }

    /// Read-only access to the referent.
    pub fn get(self) -> (r: &'static T)
        ensures
            r == self.referent(),
    {
        self.0
    }

    /// Transfers ownership of an already-allocated boxed value into the
    /// permanent arena; the allocation itself is reused, nothing is copied.
    pub fn from_box(b: Box<T>) -> (l: Self)
        ensures
            l.referent() == b,
    {
        Leak(leak_box(b))
    }
}

impl<T> Leak<T> {
    /// Allocates storage for `value`, never to be freed, and returns a handle to it.
    pub fn new(value: T) -> (l: Self)
        ensures
            *l.referent() == value,
    {
        Leak(leak_box(Box::new(value)))
    }
}

impl<T> Leak<[T]> {
    /// Transfers the vector's backing allocation into the permanent arena;
    /// the elements keep their order and nothing is copied.
    pub fn from_vec(v: Vec<T>) -> (l: Self)
        ensures
            l.referent()@ == v@,
    {
        Leak(leak_vec(v))
    }
}

impl Leak<str> {
    /// Transfers the string's backing allocation into the permanent arena;
    /// the text is unchanged and nothing is copied.
    pub fn from_string(s: String) -> (l: Self)
        ensures
            l.referent()@ == s@,
    {
        Leak(leak_string(s))
    }
}

impl<T: ?Sized + View> View for Leak<T> {
    type V = <T as View>::V;

    open spec fn view(&self) -> Self::V {
        self.referent().view()
    }
}

impl<T: ?Sized> Clone for Leak<T> {
    /// Duplicates the handle only: the referent is shared, not copied.
    fn clone(&self) -> (r: Self)
        ensures
            r == *self,
    {
        Leak(self.0)
    }
}

impl<T: ?Sized> Copy for Leak<T> {}

impl<T: ?Sized + PartialEq> PartialEqSpecImpl for Leak<T> {
    open spec fn obeys_eq_spec() -> bool {
        T::obeys_eq_spec()
    }

    open spec fn eq_spec(&self, other: &Self) -> bool {
        self.referent().eq_spec(&other.referent())
    }
}

impl<T: ?Sized + PartialEq> PartialEq for Leak<T> {
    /// Structural equality: compares the referents, never the storage addresses.
    fn eq(&self, other: &Self) -> bool {
        T::eq(self.0, other.0)
    }

    fn ne(&self, other: &Self) -> bool {
        T::ne(self.0, other.0)
    }
}

impl<T: ?Sized + Eq> Eq for Leak<T> {}

impl<T: ?Sized + PartialOrd> PartialOrdSpecImpl for Leak<T> {
    open spec fn obeys_partial_cmp_spec() -> bool {
        T::obeys_partial_cmp_spec()
    }

    open spec fn partial_cmp_spec(&self, other: &Self) -> Option<Ordering> {
        self.referent().partial_cmp_spec(&other.referent())
    }
}

impl<T: ?Sized + PartialOrd> PartialOrd for Leak<T> {
    /// Structural ordering: compares the referents, never the storage addresses.
    fn partial_cmp(&self, other: &Self) -> Option<Ordering> {
        T::partial_cmp(self.0, other.0)
    }

    fn lt(&self, other: &Self) -> bool {
        T::lt(self.0, other.0)
    }

    fn le(&self, other: &Self) -> bool {
        T::le(self.0, other.0)
    }

    fn gt(&self, other: &Self) -> bool {
        T::gt(self.0, other.0)
    }

    fn ge(&self, other: &Self) -> bool {
        T::ge(self.0, other.0)
    }
}

impl<T> Default for Leak<[T]> {
    /// The empty sequence; no storage is allocated for it.
    fn default() -> (r: Self)
        ensures
            r.referent()@ == Seq::<T>::empty(),
    {
        Leak(leak_vec(Vec::new()))
    }
}

impl Default for Leak<str> {
    /// The empty text; no storage is allocated for it.
    fn default() -> (r: Self)
        ensures
            r.referent()@ == Seq::<char>::empty(),
    {
        proof {
            reveal_strlit("");
            assert(""@ =~= Seq::<char>::empty());
        }
        Leak("")
    }
}

/// Converting an owned buffer into a leaked handle preserves its whole
/// contents: reading the referent back gives exactly the original elements,
/// as many as there were, in their original order.
pub proof fn lemma_from_vec_preserves_contents<T>(v: Vec<T>, l: Leak<[T]>)
    requires
        call_ensures(Leak::<[T]>::from_vec, (v,), l),
    ensures
        l.referent()@ == v@,
        l.referent()@.len() == v@.len(),
{
}

/// The leak step of the decode-then-leak bridge preserves the decoded value:
/// whatever owned boxed value a decoder has produced, the handle made from it
/// refers to an equal value. Round-tripping an encoding therefore rests on
/// the encode/decode pair alone; the leak step never changes the value.
pub proof fn lemma_from_box_preserves_value<T: ?Sized>(b: Box<T>, l: Leak<T>)
    requires
        call_ensures(Leak::<T>::from_box, (b,), l),
    ensures
        l.referent() == b,
{
}

/// Leaking owned text preserves it character for character.
pub proof fn lemma_from_string_preserves_contents(s: String, l: Leak<str>)
    requires
        call_ensures(Leak::<str>::from_string, (s,), l),
    ensures
        l.referent()@ == s@,
{
}

/// Leaking preserves equality: two handles freshly made from equal values are
/// themselves equal, structurally, whatever their storage addresses are.
pub proof fn lemma_new_of_equal_values_eq<T: PartialEq>(x: T, y: T, a: Leak<T>, b: Leak<T>)
    requires
        vstd::laws_eq::obeys_concrete_eq::<T>(),
        x == y,
        call_ensures(Leak::<T>::new, (x,), a),
        call_ensures(Leak::<T>::new, (y,), b),
    ensures
        PartialEqSpec::eq_spec(&a, &b),
        forall|r: bool| call_ensures(<Leak<T> as PartialEq>::eq, (&a, &b), r) ==> r,
{
    reveal(vstd::laws_eq::obeys_concrete_eq);
}

} // verus!
