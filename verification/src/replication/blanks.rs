//! Blank values side by side.

use vstd::prelude::*;

use crate::replication::DefaultReplicable;

verus! {

/// `Default::default` of values side by side: each by its own `default`.
pub assume_specification<T1: Default>[ <(T1,) as Default>::default ]() -> (result: (T1,))
    ensures
        call_ensures(T1::default, (), result.0),
;

impl<A: DefaultReplicable> DefaultReplicable for (A,) {
    open spec fn blank() -> (A::Model,) {
        (A::blank(),)
    }

    proof fn default_is_blank(value: (A,)) {
        A::default_is_blank(value.0);
    }
}

impl<A: DefaultReplicable, B: DefaultReplicable> DefaultReplicable for (A, B) {
    open spec fn blank() -> (A::Model, B::Model) {
        (A::blank(), B::blank())
    }

    proof fn default_is_blank(value: (A, B)) {
        A::default_is_blank(value.0);
        B::default_is_blank(value.1);
    }
}

impl<A: DefaultReplicable, B: DefaultReplicable, C: DefaultReplicable> DefaultReplicable for (A, B, C) {
    open spec fn blank() -> (A::Model, B::Model, C::Model) {
        (A::blank(), B::blank(), C::blank())
    }

    proof fn default_is_blank(value: (A, B, C)) {
        A::default_is_blank(value.0);
        B::default_is_blank(value.1);
        C::default_is_blank(value.2);
    }
}

/// `Default::default` of values side by side: each by its own `default`.
pub assume_specification<T1: Default, T2: Default, T3: Default, T4: Default>[ <(T1, T2, T3, T4) as Default>::default ]() -> (result: (T1, T2, T3, T4))
    ensures
        call_ensures(T1::default, (), result.0),
        call_ensures(T2::default, (), result.1),
        call_ensures(T3::default, (), result.2),
        call_ensures(T4::default, (), result.3),
;

impl<A: DefaultReplicable, B: DefaultReplicable, C: DefaultReplicable, D: DefaultReplicable> DefaultReplicable for (A, B, C, D) {
    open spec fn blank() -> (A::Model, B::Model, C::Model, D::Model) {
        (A::blank(), B::blank(), C::blank(), D::blank())
    }

    proof fn default_is_blank(value: (A, B, C, D)) {
        A::default_is_blank(value.0);
        B::default_is_blank(value.1);
        C::default_is_blank(value.2);
        D::default_is_blank(value.3);
    }
}

/// `Default::default` of values side by side: each by its own `default`.
pub assume_specification<T1: Default, T2: Default, T3: Default, T4: Default, T5: Default>[ <(T1, T2, T3, T4, T5) as Default>::default ]() -> (result: (T1, T2, T3, T4, T5))
    ensures
        call_ensures(T1::default, (), result.0),
        call_ensures(T2::default, (), result.1),
        call_ensures(T3::default, (), result.2),
        call_ensures(T4::default, (), result.3),
        call_ensures(T5::default, (), result.4),
;

impl<A: DefaultReplicable, B: DefaultReplicable, C: DefaultReplicable, D: DefaultReplicable, E: DefaultReplicable> DefaultReplicable for (A, B, C, D, E) {
    open spec fn blank() -> (A::Model, B::Model, C::Model, D::Model, E::Model) {
        (A::blank(), B::blank(), C::blank(), D::blank(), E::blank())
    }

    proof fn default_is_blank(value: (A, B, C, D, E)) {
        A::default_is_blank(value.0);
        B::default_is_blank(value.1);
        C::default_is_blank(value.2);
        D::default_is_blank(value.3);
        E::default_is_blank(value.4);
    }
}

/// `Default::default` of values side by side: each by its own `default`.
pub assume_specification<T1: Default, T2: Default, T3: Default, T4: Default, T5: Default, T6: Default>[ <(T1, T2, T3, T4, T5, T6) as Default>::default ]() -> (result: (T1, T2, T3, T4, T5, T6))
    ensures
        call_ensures(T1::default, (), result.0),
        call_ensures(T2::default, (), result.1),
        call_ensures(T3::default, (), result.2),
        call_ensures(T4::default, (), result.3),
        call_ensures(T5::default, (), result.4),
        call_ensures(T6::default, (), result.5),
;

impl<A: DefaultReplicable, B: DefaultReplicable, C: DefaultReplicable, D: DefaultReplicable, E: DefaultReplicable, F: DefaultReplicable> DefaultReplicable for (A, B, C, D, E, F) {
    open spec fn blank() -> (A::Model, B::Model, C::Model, D::Model, E::Model, F::Model) {
        (A::blank(), B::blank(), C::blank(), D::blank(), E::blank(), F::blank())
    }

    proof fn default_is_blank(value: (A, B, C, D, E, F)) {
        A::default_is_blank(value.0);
        B::default_is_blank(value.1);
        C::default_is_blank(value.2);
        D::default_is_blank(value.3);
        E::default_is_blank(value.4);
        F::default_is_blank(value.5);
    }
}

/// `Default::default` of values side by side: each by its own `default`.
pub assume_specification<T1: Default, T2: Default, T3: Default, T4: Default, T5: Default, T6: Default, T7: Default>[ <(T1, T2, T3, T4, T5, T6, T7) as Default>::default ]() -> (result: (T1, T2, T3, T4, T5, T6, T7))
    ensures
        call_ensures(T1::default, (), result.0),
        call_ensures(T2::default, (), result.1),
        call_ensures(T3::default, (), result.2),
        call_ensures(T4::default, (), result.3),
        call_ensures(T5::default, (), result.4),
        call_ensures(T6::default, (), result.5),
        call_ensures(T7::default, (), result.6),
;

impl<A: DefaultReplicable, B: DefaultReplicable, C: DefaultReplicable, D: DefaultReplicable, E: DefaultReplicable, F: DefaultReplicable, G: DefaultReplicable> DefaultReplicable for (A, B, C, D, E, F, G) {
    open spec fn blank() -> (A::Model, B::Model, C::Model, D::Model, E::Model, F::Model, G::Model) {
        (A::blank(), B::blank(), C::blank(), D::blank(), E::blank(), F::blank(), G::blank())
    }

    proof fn default_is_blank(value: (A, B, C, D, E, F, G)) {
        A::default_is_blank(value.0);
        B::default_is_blank(value.1);
        C::default_is_blank(value.2);
        D::default_is_blank(value.3);
        E::default_is_blank(value.4);
        F::default_is_blank(value.5);
        G::default_is_blank(value.6);
    }
}

/// `Default::default` of values side by side: each by its own `default`.
pub assume_specification<T1: Default, T2: Default, T3: Default, T4: Default, T5: Default, T6: Default, T7: Default, T8: Default>[ <(T1, T2, T3, T4, T5, T6, T7, T8) as Default>::default ]() -> (result: (T1, T2, T3, T4, T5, T6, T7, T8))
    ensures
        call_ensures(T1::default, (), result.0),
        call_ensures(T2::default, (), result.1),
        call_ensures(T3::default, (), result.2),
        call_ensures(T4::default, (), result.3),
        call_ensures(T5::default, (), result.4),
        call_ensures(T6::default, (), result.5),
        call_ensures(T7::default, (), result.6),
        call_ensures(T8::default, (), result.7),
;

impl<A: DefaultReplicable, B: DefaultReplicable, C: DefaultReplicable, D: DefaultReplicable, E: DefaultReplicable, F: DefaultReplicable, G: DefaultReplicable, H: DefaultReplicable> DefaultReplicable for (A, B, C, D, E, F, G, H) {
    open spec fn blank() -> (A::Model, B::Model, C::Model, D::Model, E::Model, F::Model, G::Model, H::Model) {
        (A::blank(), B::blank(), C::blank(), D::blank(), E::blank(), F::blank(), G::blank(), H::blank())
    }

    proof fn default_is_blank(value: (A, B, C, D, E, F, G, H)) {
        A::default_is_blank(value.0);
        B::default_is_blank(value.1);
        C::default_is_blank(value.2);
        D::default_is_blank(value.3);
        E::default_is_blank(value.4);
        F::default_is_blank(value.5);
        G::default_is_blank(value.6);
        H::default_is_blank(value.7);
    }
}

/// `Default::default` of values side by side: each by its own `default`.
pub assume_specification<T1: Default, T2: Default, T3: Default, T4: Default, T5: Default, T6: Default, T7: Default, T8: Default, T9: Default>[ <(T1, T2, T3, T4, T5, T6, T7, T8, T9) as Default>::default ]() -> (result: (T1, T2, T3, T4, T5, T6, T7, T8, T9))
    ensures
        call_ensures(T1::default, (), result.0),
        call_ensures(T2::default, (), result.1),
        call_ensures(T3::default, (), result.2),
        call_ensures(T4::default, (), result.3),
        call_ensures(T5::default, (), result.4),
        call_ensures(T6::default, (), result.5),
        call_ensures(T7::default, (), result.6),
        call_ensures(T8::default, (), result.7),
        call_ensures(T9::default, (), result.8),
;

impl<A: DefaultReplicable, B: DefaultReplicable, C: DefaultReplicable, D: DefaultReplicable, E: DefaultReplicable, F: DefaultReplicable, G: DefaultReplicable, H: DefaultReplicable, I: DefaultReplicable> DefaultReplicable for (A, B, C, D, E, F, G, H, I) {
    open spec fn blank() -> (A::Model, B::Model, C::Model, D::Model, E::Model, F::Model, G::Model, H::Model, I::Model) {
        (A::blank(), B::blank(), C::blank(), D::blank(), E::blank(), F::blank(), G::blank(), H::blank(), I::blank())
    }

    proof fn default_is_blank(value: (A, B, C, D, E, F, G, H, I)) {
        A::default_is_blank(value.0);
        B::default_is_blank(value.1);
        C::default_is_blank(value.2);
        D::default_is_blank(value.3);
        E::default_is_blank(value.4);
        F::default_is_blank(value.5);
        G::default_is_blank(value.6);
        H::default_is_blank(value.7);
        I::default_is_blank(value.8);
    }
}

/// `Default::default` of values side by side: each by its own `default`.
pub assume_specification<T1: Default, T2: Default, T3: Default, T4: Default, T5: Default, T6: Default, T7: Default, T8: Default, T9: Default, T10: Default>[ <(T1, T2, T3, T4, T5, T6, T7, T8, T9, T10) as Default>::default ]() -> (result: (T1, T2, T3, T4, T5, T6, T7, T8, T9, T10))
    ensures
        call_ensures(T1::default, (), result.0),
        call_ensures(T2::default, (), result.1),
        call_ensures(T3::default, (), result.2),
        call_ensures(T4::default, (), result.3),
        call_ensures(T5::default, (), result.4),
        call_ensures(T6::default, (), result.5),
        call_ensures(T7::default, (), result.6),
        call_ensures(T8::default, (), result.7),
        call_ensures(T9::default, (), result.8),
        call_ensures(T10::default, (), result.9),
;

impl<A: DefaultReplicable, B: DefaultReplicable, C: DefaultReplicable, D: DefaultReplicable, E: DefaultReplicable, F: DefaultReplicable, G: DefaultReplicable, H: DefaultReplicable, I: DefaultReplicable, J: DefaultReplicable> DefaultReplicable for (A, B, C, D, E, F, G, H, I, J) {
    open spec fn blank() -> (A::Model, B::Model, C::Model, D::Model, E::Model, F::Model, G::Model, H::Model, I::Model, J::Model) {
        (A::blank(), B::blank(), C::blank(), D::blank(), E::blank(), F::blank(), G::blank(), H::blank(), I::blank(), J::blank())
    }

    proof fn default_is_blank(value: (A, B, C, D, E, F, G, H, I, J)) {
        A::default_is_blank(value.0);
        B::default_is_blank(value.1);
        C::default_is_blank(value.2);
        D::default_is_blank(value.3);
        E::default_is_blank(value.4);
        F::default_is_blank(value.5);
        G::default_is_blank(value.6);
        H::default_is_blank(value.7);
        I::default_is_blank(value.8);
        J::default_is_blank(value.9);
    }
}

/// `Default::default` of values side by side: each by its own `default`.
pub assume_specification<T1: Default, T2: Default, T3: Default, T4: Default, T5: Default, T6: Default, T7: Default, T8: Default, T9: Default, T10: Default, T11: Default>[ <(T1, T2, T3, T4, T5, T6, T7, T8, T9, T10, T11) as Default>::default ]() -> (result: (T1, T2, T3, T4, T5, T6, T7, T8, T9, T10, T11))
    ensures
        call_ensures(T1::default, (), result.0),
        call_ensures(T2::default, (), result.1),
        call_ensures(T3::default, (), result.2),
        call_ensures(T4::default, (), result.3),
        call_ensures(T5::default, (), result.4),
        call_ensures(T6::default, (), result.5),
        call_ensures(T7::default, (), result.6),
        call_ensures(T8::default, (), result.7),
        call_ensures(T9::default, (), result.8),
        call_ensures(T10::default, (), result.9),
        call_ensures(T11::default, (), result.10),
;

impl<A: DefaultReplicable, B: DefaultReplicable, C: DefaultReplicable, D: DefaultReplicable, E: DefaultReplicable, F: DefaultReplicable, G: DefaultReplicable, H: DefaultReplicable, I: DefaultReplicable, J: DefaultReplicable, K: DefaultReplicable> DefaultReplicable for (A, B, C, D, E, F, G, H, I, J, K) {
    open spec fn blank() -> (A::Model, B::Model, C::Model, D::Model, E::Model, F::Model, G::Model, H::Model, I::Model, J::Model, K::Model) {
        (A::blank(), B::blank(), C::blank(), D::blank(), E::blank(), F::blank(), G::blank(), H::blank(), I::blank(), J::blank(), K::blank())
    }

    proof fn default_is_blank(value: (A, B, C, D, E, F, G, H, I, J, K)) {
        A::default_is_blank(value.0);
        B::default_is_blank(value.1);
        C::default_is_blank(value.2);
        D::default_is_blank(value.3);
        E::default_is_blank(value.4);
        F::default_is_blank(value.5);
        G::default_is_blank(value.6);
        H::default_is_blank(value.7);
        I::default_is_blank(value.8);
        J::default_is_blank(value.9);
        K::default_is_blank(value.10);
    }
}

/// `Default::default` of values side by side: each by its own `default`.
pub assume_specification<T1: Default, T2: Default, T3: Default, T4: Default, T5: Default, T6: Default, T7: Default, T8: Default, T9: Default, T10: Default, T11: Default, T12: Default>[ <(T1, T2, T3, T4, T5, T6, T7, T8, T9, T10, T11, T12) as Default>::default ]() -> (result: (T1, T2, T3, T4, T5, T6, T7, T8, T9, T10, T11, T12))
    ensures
        call_ensures(T1::default, (), result.0),
        call_ensures(T2::default, (), result.1),
        call_ensures(T3::default, (), result.2),
        call_ensures(T4::default, (), result.3),
        call_ensures(T5::default, (), result.4),
        call_ensures(T6::default, (), result.5),
        call_ensures(T7::default, (), result.6),
        call_ensures(T8::default, (), result.7),
        call_ensures(T9::default, (), result.8),
        call_ensures(T10::default, (), result.9),
        call_ensures(T11::default, (), result.10),
        call_ensures(T12::default, (), result.11),
;

impl<A: DefaultReplicable, B: DefaultReplicable, C: DefaultReplicable, D: DefaultReplicable, E: DefaultReplicable, F: DefaultReplicable, G: DefaultReplicable, H: DefaultReplicable, I: DefaultReplicable, J: DefaultReplicable, K: DefaultReplicable, L: DefaultReplicable> DefaultReplicable for (A, B, C, D, E, F, G, H, I, J, K, L) {
    open spec fn blank() -> (A::Model, B::Model, C::Model, D::Model, E::Model, F::Model, G::Model, H::Model, I::Model, J::Model, K::Model, L::Model) {
        (A::blank(), B::blank(), C::blank(), D::blank(), E::blank(), F::blank(), G::blank(), H::blank(), I::blank(), J::blank(), K::blank(), L::blank())
    }

    proof fn default_is_blank(value: (A, B, C, D, E, F, G, H, I, J, K, L)) {
        A::default_is_blank(value.0);
        B::default_is_blank(value.1);
        C::default_is_blank(value.2);
        D::default_is_blank(value.3);
        E::default_is_blank(value.4);
        F::default_is_blank(value.5);
        G::default_is_blank(value.6);
        H::default_is_blank(value.7);
        I::default_is_blank(value.8);
        J::default_is_blank(value.9);
        K::default_is_blank(value.10);
        L::default_is_blank(value.11);
    }
}

} // verus!
