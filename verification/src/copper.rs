//! Copper: the stand-in store of the first server, which keeps nothing.

use vstd::prelude::*;
use vstd::string::StringExecFns;

verus! {

/// A store that answers every read with a text made from the key.
pub struct Copper {}

impl Copper {
    /// A store; `_path` is not looked at.
    pub fn start(_path: &str) -> (r: Self) {
        Copper {  }
    }

    /// The value of `key`: the words `Value for ` and the key.
    pub fn read(&self, key: String) -> (r: Option<String>)
        ensures
            r matches Some(value) && value@ == "Value for "@ + key@,
    {
        let mut ret = "Value for ".to_owned();
        ret.append(key.as_str());
        Some(ret)
    }

    /// Takes a write, and keeps nothing.
    pub fn write(&self, _key: String, _value: String) -> (r: Option<()>)
        ensures
            r is Some,
    {
        Some(())
    }
}

} // verus!
