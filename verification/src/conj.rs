use vstd::prelude::*;

verus! {

/// Whether a view reads its elements as stored, or as their complex conjugates.
#[derive(Copy, Clone, Debug, PartialEq, Eq, Structural)]
pub enum Conj {
    Yes,
    No,
}

impl Conj {
    /// Conjugating twice is the identity: the composition is `No` exactly when both agree.
    pub open spec fn compose_spec(self, other: Conj) -> Conj {
        if self == other { Conj::No } else { Conj::Yes }
    }

    pub fn compose(self, other: Conj) -> (r: Conj)
        ensures
            r == self.compose_spec(other),
    {
        if self == other {
            Conj::No
        } else {
            Conj::Yes
        }
    }
}

/// Composition of conjugation states is commutative and associative, has `No` as
/// its identity, and undoes itself: conjugating twice reads the values as stored.
pub proof fn lemma_compose_laws(a: Conj, b: Conj, c: Conj)
    ensures
        a.compose_spec(b) == b.compose_spec(a),
        a.compose_spec(b).compose_spec(c) == a.compose_spec(b.compose_spec(c)),
        a.compose_spec(Conj::No) == a,
        a.compose_spec(a) == Conj::No,
        a.compose_spec(Conj::Yes).compose_spec(Conj::Yes) == a,
{
}

/// `f` can be called on every value and gives one result for each: it computes a
/// function, such as the complex conjugate of an element.
pub open spec fn total_function<T, F: Fn(T) -> T>(f: F) -> bool {
    &&& forall|x: T| #[trigger] call_requires(f, (x,))
    &&& forall|x: T, y1: T, y2: T|
        #[trigger] call_ensures(f, (x,), y1) && #[trigger] call_ensures(f, (x,), y2) ==> y1 == y2
}

/// The value of a stored element `x` read with conjugation state `c`, where `conjugate`
/// computes complex conjugates: `x` itself for `No`, what `conjugate` returns for `x`
/// for `Yes`.
pub open spec fn read_as<T, F: Fn(T) -> T>(conjugate: F, x: T, c: Conj) -> T {
    if c == Conj::Yes {
        choose|y: T| call_ensures(conjugate, (x,), y)
    } else {
        x
    }
}

/// What a call of a total function returns is the value `read_as` names.
pub proof fn lemma_read_as<T, F: Fn(T) -> T>(conjugate: F, x: T, y: T)
    requires
        total_function(conjugate),
        call_ensures(conjugate, (x,), y),
    ensures
        read_as(conjugate, x, Conj::Yes) == y,
{
    let z = read_as(conjugate, x, Conj::Yes);
    assert(call_ensures(conjugate, (x,), z));
}

} // verus!
