use crate::stateful::{StatefulNestedRouter, StatefulRoutes};
use vstd::prelude::*;

verus! {

/// A controller whose type provides one route of the application.
pub struct Controller<T: StatefulNestedRouter<T>>(pub T);

/// One route per controller, each from its type's factory, in the order of
/// the controllers.
pub fn get_controller_routes<T: StatefulNestedRouter<T>>(controllers: Vec<Controller<T>>) -> (r: StatefulRoutes<T>)
    ensures
        r@.len() == controllers@.len(),
{
    let mut r: StatefulRoutes<T> = Vec::new();
    let mut i: usize = 0;
    while i < controllers.len()
        invariant
            i <= controllers@.len(),
            r@.len() == i,
        decreases controllers@.len() - i,
    {
        r.push(T::get());
        i = i + 1;
    }
    r
}

} // verus!
