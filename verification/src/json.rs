//! The generic value tree handed in by the caller, modelled as an arena: a
//! document is an array of values, and children are slots in that array.
//! A slot index is a stable address, so identity of two sub-values is
//! equality of their addresses; structural sharing and even cyclic sharing
//! can be represented by two parents naming the same slot.

use vstd::prelude::*;
use vstd::string::StrSliceExecFns;
use crate::text::str_eq;

verus! {

/// One member of an object value: a key and the slot of the member's value.
pub struct Member {
    pub key: String,
    pub value: usize,
}

/// A parsed value. Numbers carry their unsigned integral reading when they
/// have one, since that is all the keyword constructors consume.
pub enum JsonValue {
    Null,
    Bool(bool),
    Num(Option<u64>),
    Str(String),
    Arr(Vec<usize>),
    Obj(Vec<Member>),
}

/// One schema document: an arena of values whose root is slot 0.
pub struct Doc {
    pub values: Vec<JsonValue>,
}

/// Every document reachable during one compilation, the root one included.
pub struct Documents {
    pub docs: Vec<Doc>,
}

/// The address of a value: a document and a slot in its arena.
#[derive(Clone, Copy, PartialEq, Eq, Structural, Debug)]
pub struct Addr {
    pub doc: usize,
    pub idx: usize,
}

/// A value only names slots that exist in an arena of `n` values.
pub open spec fn value_wf(v: JsonValue, n: nat) -> bool {
    match v {
        JsonValue::Arr(items) => forall|i: int| 0 <= i < items@.len() ==> (items@[i] as nat) < n,
        JsonValue::Obj(members) => forall|i: int|
            0 <= i < members@.len() ==> (members@[i].value as nat) < n,
        _ => true,
    }
}

impl Doc {
    /// The arena has a root and every child slot is in bounds.
    pub open spec fn wf(&self) -> bool {
        self.values@.len() >= 1 && forall|i: int|
            0 <= i < self.values@.len() ==> value_wf(self.values@[i], self.values@.len() as nat)
    }
}

/// The value of the first `$id` member of an object whose value is a string
/// in the arena, if any; a first `$id` member of another shape hides later
/// ones, as a single lookup in a key/value mapping would.
pub open spec fn spec_id_of(values: Seq<JsonValue>, members: Seq<Member>) -> Option<Seq<char>>
    decreases members.len(),
{
    if members.len() == 0 {
        None
    } else if members[0].key@ == "$id"@ {
        if 0 <= members[0].value < values.len() {
            match values[members[0].value as int] {
                JsonValue::Str(s) => Some(s@),
                _ => None,
            }
        } else {
            None
        }
    } else {
        spec_id_of(values, members.drop_first())
    }
}

impl Documents {
    pub open spec fn wf(&self) -> bool {
        forall|d: int| 0 <= d < self.docs@.len() ==> (#[trigger] self.docs@[d]).wf()
    }

    pub open spec fn addr_ok(&self, a: Addr) -> bool {
        a.doc < self.docs@.len() && a.idx < self.docs@[a.doc as int].values@.len()
    }

    pub open spec fn spec_value_at(&self, a: Addr) -> JsonValue {
        self.docs@[a.doc as int].values@[a.idx as int]
    }

    /// How many values all documents hold together.
    pub open spec fn total_values(&self) -> int {
        total_values_of(self.docs@)
    }

    /// Reads the value stored at an address.
    pub fn value_at(&self, a: Addr) -> (r: &JsonValue)
        requires
            self.addr_ok(a),
        ensures
            *r == self.spec_value_at(a),
    {
        &self.docs[a.doc].values[a.idx]
    }
}

pub open spec fn total_values_of(docs: Seq<Doc>) -> int
    decreases docs.len(),
{
    if docs.len() == 0 {
        0
    } else {
        total_values_of(docs.drop_last()) + docs.last().values@.len()
    }
}

impl Doc {
    /// Finds the `$id` of an object, walking its members in order.
    pub fn id_of_object(&self, members: &Vec<Member>) -> (r: Option<String>)
        ensures
            match r {
                Some(s) => spec_id_of(self.values@, members@) == Some(s@),
                None => spec_id_of(self.values@, members@) is None,
            },
    {
        proof {
            assert(members@.skip(0) =~= members@);
        }
        let mut i: usize = 0;
        while i < members.len()
            invariant
                0 <= i <= members@.len(),
                spec_id_of(self.values@, members@) == spec_id_of(
                    self.values@,
                    members@.skip(i as int),
                ),
            decreases members@.len() - i,
        {
            proof {
                assert(members@.skip(i as int).drop_first() =~= members@.skip(i + 1));
                assert(members@.skip(i as int)[0] == members@[i as int]);
            }
            let m = &members[i];
            if str_eq(m.key.as_str(), "$id") {
                if m.value < self.values.len() {
                    match &self.values[m.value] {
                        JsonValue::Str(s) => {
                            return Some(s.clone());
                        },
                        _ => {
                            return None;
                        },
                    }
                } else {
                    return None;
                }
            }
            i += 1;
        }
        None
    }
}

} // verus!
