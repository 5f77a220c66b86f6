//! The tree a parse produces, and the mathematical value it stands for.

use vstd::prelude::*;

verus! {

/// A value as mathematics sees it. Every contract of this crate speaks of
/// trees through this type.
pub enum Value {
    /// A whole number.
    Integer(int),
    /// A number in decimal notation that is no integer that fits in 32 bits,
    /// kept as the characters that write it.
    Float(Seq<char>),
    /// The characters between two quotes.
    Text(Seq<char>),
    Null,
    Boolean(bool),
    /// Members by key. A key occurs once.
    Object(Map<Seq<char>, Value>),
    /// Elements in the order in which they were written.
    Array(Seq<Value>),
}

/// One node of a parsed tree.
#[derive(Debug)]
pub enum Node {
    IntLiteral(i32),
    /// The literal's own text. In a tree that the parser returns it is digits
    /// with at most one point among them, which `str::parse` reads as a float:
    /// a caller who wants a binary float converts it there.
    FloatLiteral(String),
    StringLiteral(String),
    NullLiteral,
    BoolLiteral(bool),
    Object(ObjectMap),
    Array(Vec<Node>),
}

/// The members of an object: a map from keys to nodes, in which a later
/// insertion under a key that is present replaces the node stored there.
#[derive(Debug)]
pub struct ObjectMap {
    entries: Vec<(String, Node)>,
}

impl View for Node {
    type V = Value;

    open spec fn view(&self) -> Value
        decreases self,
    {
        match self {
            Node::IntLiteral(i) => Value::Integer(*i as int),
            Node::FloatLiteral(text) => Value::Float(text@),
            Node::StringLiteral(text) => Value::Text(text@),
            Node::NullLiteral => Value::Null,
            Node::BoolLiteral(b) => Value::Boolean(*b),
            Node::Object(members) => Value::Object(members@),
            Node::Array(elements) => Value::Array(views_of(elements@)),
        }
    }
}

/// The values of a sequence of nodes, one for one.
pub open spec fn views_of(nodes: Seq<Node>) -> Seq<Value>
    decreases nodes,
{
    Seq::new(nodes.len(), |i: int| if 0 <= i < nodes.len() { nodes[i]@ } else { Value::Null })
}

impl View for ObjectMap {
    type V = Map<Seq<char>, Value>;

    closed spec fn view(&self) -> Map<Seq<char>, Value>
        decreases self,
    {
        Map::new(
            |key: Seq<char>| self.has_key(key),
            |key: Seq<char>|
                {
                    let i = self.index_of(key);
                    if 0 <= i < self.entries@.len() {
                        self.entries@[i].1@
                    } else {
                        Value::Null
                    }
                },
        )
    }
}

impl ObjectMap {
    #[verifier::type_invariant]
    spec fn keys_differ(&self) -> bool {
        forall|i: int, j: int|
            0 <= i < j < self.entries@.len() ==> self.entries@[i].0@ != self.entries@[j].0@
    }

    spec fn has_key(&self, key: Seq<char>) -> bool {
        exists|i: int| 0 <= i < self.entries@.len() && self.entries@[i].0@ == key
    }

    spec fn index_of(&self, key: Seq<char>) -> int {
        choose|i: int| 0 <= i < self.entries@.len() && self.entries@[i].0@ == key
    }

    /// An object without members.
    pub fn new() -> (members: ObjectMap)
        ensures
            members@ == Map::<Seq<char>, Value>::empty(),
    {
        let members = ObjectMap { entries: Vec::new() };
        assert(members@ =~= Map::<Seq<char>, Value>::empty());
        members
    }

    /// Stores `value` under `key`. A node already stored under an equal key is
    /// replaced.
    pub fn insert(&mut self, key: String, value: Node)
        ensures
            final(self)@ == old(self)@.insert(key@, value@),
    {
        proof {
            use_type_invariant(&*self);
        }
        let mut i: usize = 0;
        while i < self.entries.len() && !(self.entries[i].0 == key)
            invariant
                i <= self.entries@.len(),
                forall|j: int| 0 <= j < i ==> self.entries@[j].0@ != key@,
            decreases self.entries@.len() - i,
        {
            i += 1;
        }
        let mut entries: Vec<(String, Node)> = Vec::new();
        std::mem::swap(&mut self.entries, &mut entries);
        if i < entries.len() {
            entries.set(i, (key, value));
        } else {
            entries.push((key, value));
        }
        std::mem::swap(&mut self.entries, &mut entries);
        proof {
            let before = *old(self);
            let after = *self;
            let wanted = before@.insert(key@, value@);
            assert forall|k: Seq<char>| after@.contains_key(k) <==> wanted.contains_key(k) by {
                if after.has_key(k) {
                    let j = after.index_of(k);
                    if j != i {
                        before.lemma_entry(j);
                    }
                }
                if before.has_key(k) {
                    let j = before.index_of(k);
                    after.lemma_entry(j);
                }
                if k == key@ {
                    after.lemma_entry(i as int);
                }
            }
            assert forall|k: Seq<char>| after@.contains_key(k) implies after@[k] == wanted[k] by {
                let j = after.index_of(k);
                after.lemma_entry(j);
                if j != i {
                    before.lemma_entry(j);
                }
            }
            assert(after@ =~= wanted);
        }
    }

    /// The node stored under `key`, if there is one.
    pub fn get(&self, key: &str) -> (found: Option<&Node>)
        ensures
            match found {
                Some(node) => self@.contains_key(key@) && self@[key@] == node@,
                None => !self@.contains_key(key@),
            },
    {
        proof {
            use_type_invariant(self);
        }
        let wanted = key.to_owned();
        let mut i: usize = 0;
        while i < self.entries.len()
            invariant
                self.keys_differ(),
                wanted@ == key@,
                i <= self.entries@.len(),
                forall|j: int| 0 <= j < i ==> self.entries@[j].0@ != key@,
            decreases self.entries@.len() - i,
        {
            if self.entries[i].0 == wanted {
                proof {
                    self.lemma_entry(i as int);
                }
                return Some(&self.entries[i].1);
            }
            i += 1;
        }
        None
    }

    /// How many members the object has.
    pub fn len(&self) -> (count: usize)
        ensures
            self@.dom().finite(),
            count == self@.len(),
    {
        proof {
            use_type_invariant(self);
            self.lemma_keys();
        }
        self.entries.len()
    }

    /// Whether the object has no member.
    pub fn is_empty(&self) -> (empty: bool)
        ensures
            empty == (self@ == Map::<Seq<char>, Value>::empty()),
    {
        proof {
            use_type_invariant(self);
            if self.entries@.len() > 0 {
                self.lemma_entry(0);
            }
            assert(self.entries@.len() == 0 ==> self@ =~= Map::<Seq<char>, Value>::empty());
        }
        self.entries.len() == 0
    }

    /// The members as pairs of a key and its node. Each key stands in one pair.
    pub fn into_entries(self) -> (entries: Vec<(String, Node)>)
        ensures
            entries@.len() == self@.len(),
            forall|i: int|
                0 <= i < entries@.len() ==> #[trigger] self@.contains_key(entries@[i].0@)
                    && self@[entries@[i].0@] == entries@[i].1@,
            forall|i: int, j: int|
                0 <= i < j < entries@.len() ==> entries@[i].0@ != entries@[j].0@,
    {
        proof {
            use_type_invariant(&self);
            self.lemma_keys();
            assert forall|i: int| 0 <= i < self.entries@.len() implies #[trigger] self@.contains_key(
                self.entries@[i].0@,
            ) && self@[self.entries@[i].0@] == self.entries@[i].1@ by {
                self.lemma_entry(i);
            }
        }
        self.entries
    }

    /// The keys of the entries, in order.
    spec fn keys(&self) -> Seq<Seq<char>> {
        Seq::new(self.entries@.len(), |i: int| self.entries@[i].0@)
    }

    /// A map whose keys differ has as many members as entries.
    proof fn lemma_keys(&self)
        requires
            self.keys_differ(),
        ensures
            self@.dom().finite(),
            self@.len() == self.entries@.len(),
    {
        let keys = self.keys();
        assert(keys.no_duplicates());
        keys.unique_seq_to_set();
        assert(self@.dom() =~= keys.to_set()) by {
            assert forall|k: Seq<char>| self@.dom().contains(k) implies keys.to_set().contains(k) by {
                let i = self.index_of(k);
                assert(keys[i] == k);
            }
            assert forall|k: Seq<char>| keys.to_set().contains(k) implies self@.dom().contains(k) by {
                let i = choose|i: int| 0 <= i < keys.len() && keys[i] == k;
                assert(self.entries@[i].0@ == k);
            }
        }
    }

    /// In a map whose keys differ, the entry at `j` is what the view holds
    /// under that entry's key.
    proof fn lemma_entry(&self, j: int)
        requires
            self.keys_differ(),
            0 <= j < self.entries@.len(),
        ensures
            self@.contains_key(self.entries@[j].0@),
            self@[self.entries@[j].0@] == self.entries@[j].1@,
    {
        let key = self.entries@[j].0@;
        assert(self.has_key(key));
        let found = self.index_of(key);
        assert(found == j);
    }
}

} // verus!
