//! The demonstration component and systems: a named entity, spawned at
//! startup, greeted on every tick.

use vstd::prelude::*;
use crate::world::World;
use crate::world::lemma_query_exact;
use crate::sched::Control;
use crate::sched::Fault;
use crate::sched::System;

verus! {

/// The component kind key under which `MyName` values are stored.
pub const MY_NAME_KIND: u64 = 0;

/// The demonstration component: a textual name (UTF-8, possibly empty).
pub struct MyName {
    pub name: String,
}

impl MyName {
    /// The greeting line for this name.
    pub fn greeting(&self) -> (r: String)
        ensures
            r@ == "Hello, my name is "@ + self.name@,
    {
        let mut r = String::new();
        r.append("Hello, my name is ");
        r.append(self.name.as_str());
        proof {
            assert(r@ =~= "Hello, my name is "@ + self.name@);
        }
        r
    }
}

/// A startup callback that spawns one fresh entity holding a `MyName` with
/// this name. Identifier exhaustion is surfaced as a fatal fault.
pub struct SpawnNamed {
    pub name: String,
}

impl System<MyName> for SpawnNamed {
    fn run(&self, world: &mut World<MyName>, _control: &mut Control) -> Result<(), Fault> {
        match world.spawn(MY_NAME_KIND, MyName { name: self.name.clone() }) {
            Ok(_) => Ok(()),
            Err(e) => Err(Fault { fatal: true, message: e.message() }),
        }
    }
}

/// One greeting line per entity currently holding a `MyName`, in query order:
/// what an update callback prints each tick.
pub fn greetings(world: &World<MyName>) -> (r: Vec<String>)
    ensures
        r@.len() == world.entities_of(MY_NAME_KIND).len(),
        forall|i: int|
            0 <= i < r@.len() ==> (#[trigger] r@[i])@ == "Hello, my name is "@ + world.value_of(
                MY_NAME_KIND,
                world.entities_of(MY_NAME_KIND)[i],
            ).name@,
{
    let es = world.query(MY_NAME_KIND);
    let n = es.len();
    let mut out: Vec<String> = Vec::new();
    let mut i: usize = 0;
    while i < n
        invariant
            es@ == world.entities_of(MY_NAME_KIND),
            n == es@.len(),
            i <= n,
            out@.len() == i as int,
            forall|k: int|
                0 <= k < i as int ==> (#[trigger] out@[k])@ == "Hello, my name is "@
                    + world.value_of(MY_NAME_KIND, es@[k]).name@,
        decreases n - i,
    {
        proof {
            use_type_invariant(&*world);
            assert(world.entities_of(MY_NAME_KIND)[i as int] == es@[i as int]);
            assert(world.entities_of(MY_NAME_KIND).contains(es@[i as int]));
            lemma_query_exact(*world, MY_NAME_KIND, es@[i as int]);
        }
        match world.get(MY_NAME_KIND, es[i]) {
            Some(v) => {
                out.push(v.greeting());
            },
            None => {
                proof {
                    assert(false);
                }
            },
        }
        i = i + 1;
    }
    out
}

} // verus!
