//! The variable environment of the interpreter.

use crate::interpret::value::Value;
use vstd::prelude::*;

verus! {

/// Named values, looked up by variable name.
#[derive(Clone, Debug, PartialEq)]
pub struct Environment {
    values: Vec<(String, Value)>,
}

impl Environment {
    /// Names are unique.
    pub closed spec fn wf(self) -> bool {
        forall|i: int, j: int|
            0 <= i < j < self.values@.len() ==> (#[trigger] self.values@[i]).0@ != (
            #[trigger] self.values@[j]).0@
    }

    /// An empty environment.
    pub fn new() -> (r: Environment)
        ensures
            r.wf(),
            r.spec_names() == Seq::<Seq<char>>::empty(),
    {
        let values: Vec<(String, Value)> = Vec::new();
        Environment { values }
    }

    /// The names bound in this environment, in insertion order.
    pub closed spec fn spec_names(self) -> Seq<Seq<char>> {
        Seq::new(self.values@.len(), |i: int| self.values@[i].0@)
    }

    /// The value bound to a name.
    pub closed spec fn spec_value_at(self, i: int) -> Value {
        self.values@[i].1
    }

    /// Looks a variable up by name: the bound value when the name is
    /// present, `None` otherwise.
    pub fn get_value(&self, key: &str) -> (r: Option<&Value>)
        ensures
            r is Some <==> (exists|i: int|
                0 <= i < self.spec_names().len() && self.spec_names()[i] == key@),
            (r matches Some(v) ==> exists|i: int|
                0 <= i < self.spec_names().len() && self.spec_names()[i] == key@ && *v
                    == self.spec_value_at(i)),
    {
        let owned = key.to_owned();
        let n = self.values.len();
        let mut k: usize = 0;
        while k < n
            invariant
                k <= n,
                n == self.values@.len(),
                owned@ == key@,
                forall|i: int| 0 <= i < k ==> (#[trigger] self.values@[i]).0@ != key@,
            decreases n - k,
        {
            let pair = &self.values[k];
            if pair.0 == owned {
                proof {
                    assert(self.spec_names()[k as int] == key@);
                    assert(self.spec_value_at(k as int) == self.values@[k as int].1);
                }
                return Some(&pair.1);
            }
            k = k + 1;
        }
        None
    }
}

impl Default for Environment {
    fn default() -> (r: Environment)
        ensures
            r.wf(),
            r.spec_names() == Seq::<Seq<char>>::empty(),
    {
        Environment::new()
    }
}

} // verus!
