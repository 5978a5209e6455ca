use vstd::prelude::*;

verus! {

/// The engine surface a serving layer programs against. Backend variants
/// (in-memory only, log-structured on disk) implement this one interface.
pub trait KvsEngine {
    fn get(&mut self, key: String) -> String;

    fn set(&mut self, key: String, val: String);

    fn remove(&mut self, key: String);
}

} // verus!
