//! Heap string objects and the singly linked list that owns them.
use vstd::prelude::*;

verus! {

/// The kinds of heap object.
#[derive(Debug, Clone, Copy, PartialEq, Eq, Structural)]
pub enum ObjectType {
    String,
}

/// The head of an object list: the most recently made object, or nothing.
pub type RawObject = Option<Box<StringObject>>;

/// The header every heap object starts with: its kind and the rest of the list.
#[derive(Debug)]
pub struct Object {
    pub ty: ObjectType,
    pub next: RawObject,
}

/// A heap string and its place in the object list.
#[derive(Debug)]
pub struct StringObject {
    pub obj: Object,
    pub chars: ObjectValue,
}

/// The characters of a string object: copied from a literal of the source,
/// or built while the program runs.
#[derive(Debug, Clone)]
pub enum ObjectValue {
    Str(String),
    String(String),
}

/// The characters that a string object holds.
pub open spec fn object_chars(v: ObjectValue) -> Seq<char> {
    match v {
        ObjectValue::Str(s) => s@,
        ObjectValue::String(s) => s@,
    }
}

/// The strings of an object list, from the head.
pub open spec fn list_strings(list: RawObject) -> Seq<Seq<char>>
    decreases list,
{
    match list {
        Some(b) => seq![object_chars(b.chars)].add(list_strings(b.obj.next)),
        None => Seq::empty(),
    }
}

impl Object {
    /// A header of kind `ty` in front of `next`.
    pub fn new(ty: ObjectType, next: RawObject) -> (r: Object)
        ensures
            r.ty == ty,
            r.next == next,
    {
        Object { ty, next }
    }
}

impl StringObject {
    /// Puts a copy of the literal `string` in front of the list `next` and
    /// returns the new head.
    pub fn new(string: &str, next: RawObject) -> (r: RawObject)
        ensures
            r is Some,
            list_strings(r) == seq![string@].add(list_strings(next)),
            r->0.chars is Str,
            r->0.obj.ty == ObjectType::String,
            r->0.obj.next == next,
    {
        let s = StringObject {
            obj: Object::new(ObjectType::String, next),
            chars: ObjectValue::Str(String::from_str(string)),
        };
        Some(Box::new(s))
    }

    /// Puts `chars` in front of the list `next`, taking ownership of it, and
    /// returns the new head.
    pub fn from_owned(chars: String, next: RawObject) -> (r: RawObject)
        ensures
            r is Some,
            list_strings(r) == seq![chars@].add(list_strings(next)),
            r->0.chars == ObjectValue::String(chars),
            r->0.obj.ty == ObjectType::String,
            r->0.obj.next == next,
    {
        let s = StringObject {
            obj: Object::new(ObjectType::String, next),
            chars: ObjectValue::String(chars),
        };
        Some(Box::new(s))
    }
}

impl ObjectValue {
    /// The characters of the string.
    pub fn string(&self) -> (r: &String)
        ensures
            r@ == object_chars(*self),
    {
        match self {
            ObjectValue::Str(s) => s,
            ObjectValue::String(s) => s,
        }
    }
}

/// Releases every object of a list, one node at a time from the head.
pub fn free_objects(list: RawObject)
    opens_invariants none
    no_unwind
{
    let mut cur = list;
    loop
        decreases list_strings(cur).len(),
    {
        match cur {
            Some(node) => {
                let StringObject { obj, .. } = *node;
                cur = obj.next;
            },
            None => break,
        }
    }
}

} // verus!
