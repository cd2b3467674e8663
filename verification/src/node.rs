//! The document tree model.
//!
//! A document is a [`Node`]: a scalar, an ordered mapping from keys to child
//! nodes, or an ordered list of nodes.  Mappings keep insertion order and
//! never hold two entries with the same key; a repeated sibling element is
//! represented by promoting the entry's value to a list.

use vstd::prelude::*;

verus! {

/// One entry of an ordered mapping: a key and the node stored under it.
#[derive(Debug, PartialEq)]
pub struct Entry {
    pub key: String,
    pub val: Node,
}

/// A node of the document tree.
///
/// Scalars carry leaf text and attribute values.  `UInt` holds text that
/// parses as an unsigned integer, `Dec` holds decimal numeric text kept
/// verbatim, `Bool` holds `true`/`false`, and `Null` stands for an absent
/// value.  `Obj` is an ordered mapping and `Arr` an ordered list.
#[derive(Debug, PartialEq)]
pub enum Node {
    Str(String),
    UInt(u64),
    Dec(String),
    Bool(bool),
    Null,
    Obj(Vec<Entry>),
    Arr(Vec<Node>),
}

/// The mathematical value of a [`Node`]: the same tree over `Seq`.
#[verifier::ext_equal]
pub enum NodeData {
    Str(Seq<char>),
    UInt(u64),
    Dec(Seq<char>),
    Bool(bool),
    Null,
    Obj(Seq<(Seq<char>, NodeData)>),
    Arr(Seq<NodeData>),
}

impl View for Entry {
    type V = (Seq<char>, NodeData);

    open spec fn view(&self) -> (Seq<char>, NodeData) {
        (self.key@, self.val@)
    }
}

/// The views of a mapping's entries, in order.
pub open spec fn entries_data(s: Seq<Entry>) -> Seq<(Seq<char>, NodeData)>
    decreases s,
{
    if s.len() == 0 {
        Seq::empty()
    } else {
        seq![(s[0].key@, s[0].val@)] + entries_data(s.drop_first())
    }
}

/// The views of a list's items, in order.
pub open spec fn items_data(s: Seq<Node>) -> Seq<NodeData>
    decreases s,
{
    if s.len() == 0 {
        Seq::empty()
    } else {
        seq![s[0]@] + items_data(s.drop_first())
    }
}

impl View for Node {
    type V = NodeData;

    open spec fn view(&self) -> NodeData
        decreases self,
    {
        match self {
            Node::Str(s) => NodeData::Str(s@),
            Node::UInt(u) => NodeData::UInt(*u),
            Node::Dec(s) => NodeData::Dec(s@),
            Node::Bool(b) => NodeData::Bool(*b),
            Node::Null => NodeData::Null,
            Node::Obj(entries) => NodeData::Obj(entries_data(entries@)),
            Node::Arr(items) => NodeData::Arr(items_data(items@)),
        }
    }
}

/// `entries_data` reads entry by entry.
pub proof fn lemma_entries_data(s: Seq<Entry>)
    ensures
        entries_data(s).len() == s.len(),
        forall|i: int| 0 <= i < s.len() ==> entries_data(s)[i] == (s[i].key@, s[i].val@),
    decreases s,
{
    if s.len() > 0 {
        lemma_entries_data(s.drop_first());
        assert(entries_data(s) == seq![(s[0].key@, s[0].val@)] + entries_data(s.drop_first()));
        assert(entries_data(s).len() == s.len());
        assert forall|i: int| 0 <= i < s.len() implies entries_data(s)[i] == (
        s[i].key@,
        s[i].val@,
        ) by {
            if i > 0 {
                assert(s.drop_first()[i - 1] == s[i]);
                assert(entries_data(s)[i] == entries_data(s.drop_first())[i - 1]);
            }
        }
    }
}

/// `items_data` reads item by item.
pub proof fn lemma_items_data(s: Seq<Node>)
    ensures
        items_data(s).len() == s.len(),
        forall|i: int| 0 <= i < s.len() ==> items_data(s)[i] == s[i]@,
    decreases s,
{
    if s.len() > 0 {
        lemma_items_data(s.drop_first());
        assert(items_data(s) == seq![s[0]@] + items_data(s.drop_first()));
        assert(items_data(s).len() == s.len());
        assert forall|i: int| 0 <= i < s.len() implies items_data(s)[i] == s[i]@ by {
            if i > 0 {
                assert(s.drop_first()[i - 1] == s[i]);
                assert(items_data(s)[i] == items_data(s.drop_first())[i - 1]);
            }
        }
    }
}

impl NodeData {
    /// The keys of a mapping, in order; empty for any other node.
    pub open spec fn keys(self) -> Seq<Seq<char>> {
        match self {
            NodeData::Obj(entries) => entries.map_values(|e: (Seq<char>, NodeData)| e.0),
            _ => Seq::empty(),
        }
    }

    /// Whether a mapping holds an entry under `key`.
    pub open spec fn has_key(self, key: Seq<char>) -> bool {
        match self {
            NodeData::Obj(entries) => exists|i: int| 0 <= i < entries.len() && entries[i].0 == key,
            _ => false,
        }
    }

    /// The value stored under the first entry named `key`.
    pub open spec fn get(self, key: Seq<char>) -> NodeData
        recommends
            self.has_key(key),
    {
        match self {
            NodeData::Obj(entries) => {
                let i = choose|i: int| 0 <= i < entries.len() && entries[i].0 == key;
                entries[i].1
            },
            _ => NodeData::Null,
        }
    }

    /// Whether every key of a mapping occurs only once.
    pub open spec fn distinct_keys(entries: Seq<(Seq<char>, NodeData)>) -> bool {
        forall|i: int, j: int|
            0 <= i < j < entries.len() ==> entries[i].0 != entries[j].0
    }

    /// Well-formedness of the whole tree: every mapping anywhere in it has
    /// distinct keys.
    pub open spec fn wf(self) -> bool
        decreases self,
    {
        match self {
            NodeData::Obj(entries) => {
                &&& NodeData::distinct_keys(entries)
                &&& forall|i: int|
                    0 <= i < entries.len() ==> #[trigger] entries[i].1.wf()
            },
            NodeData::Arr(items) => forall|i: int| 0 <= i < items.len() ==> #[trigger] items[i].wf(),
            _ => true,
        }
    }
}

/// The index of the first entry named `key`, or `-1` if there is none.
pub open spec fn obj_index(entries: Seq<(Seq<char>, NodeData)>, key: Seq<char>) -> int
    decreases entries.len(),
{
    if entries.len() == 0 {
        -1
    } else if entries[0].0 == key {
        0
    } else {
        let r = obj_index(entries.drop_first(), key);
        if r < 0 {
            -1
        } else {
            r + 1
        }
    }
}

/// Whether some entry is named `key`.
pub open spec fn obj_has(entries: Seq<(Seq<char>, NodeData)>, key: Seq<char>) -> bool {
    obj_index(entries, key) >= 0
}

/// The value of the first entry named `key`.
pub open spec fn obj_get(entries: Seq<(Seq<char>, NodeData)>, key: Seq<char>) -> NodeData
    recommends
        obj_has(entries, key),
{
    entries[obj_index(entries, key)].1
}

/// Stores `val` under `key`: in place of the existing entry of that name,
/// or appended at the end when the name is new.
pub open spec fn obj_insert(
    entries: Seq<(Seq<char>, NodeData)>,
    key: Seq<char>,
    val: NodeData,
) -> Seq<(Seq<char>, NodeData)> {
    let i = obj_index(entries, key);
    if i >= 0 {
        entries.update(i, (key, val))
    } else {
        entries.push((key, val))
    }
}

/// `obj_index` finds the first entry of the name, and only that.
pub proof fn lemma_obj_index(entries: Seq<(Seq<char>, NodeData)>, key: Seq<char>)
    ensures
        -1 <= obj_index(entries, key) < entries.len(),
        obj_index(entries, key) >= 0 ==> entries[obj_index(entries, key)].0 == key,
        forall|j: int|
            0 <= j < entries.len() && #[trigger] entries[j].0 == key ==> obj_index(entries, key)
                >= 0 && obj_index(entries, key) <= j,
    decreases entries.len(),
{
    if entries.len() > 0 && entries[0].0 != key {
        lemma_obj_index(entries.drop_first(), key);
        assert forall|j: int|
            0 <= j < entries.len() && #[trigger] entries[j].0 == key implies obj_index(
            entries,
            key,
        ) >= 0 && obj_index(entries, key) <= j by {
            assert(j > 0);
            assert(entries.drop_first()[j - 1] == entries[j]);
        }
    }
}

/// Finds the first entry named `key` in an entry vector.
pub fn entry_index(entries: &Vec<Entry>, key: &str) -> (r: Option<usize>)
    ensures
        match r {
            Some(i) => 0 <= i < entries@.len() && obj_index(entries_data(entries@), key@) == i as int,
            None => obj_index(entries_data(entries@), key@) == -1,
        },
{
    proof {
        lemma_entries_data(entries@);
        lemma_obj_index(entries_data(entries@), key@);
    }
    let ghost ed = entries_data(entries@);
    let mut i: usize = 0;
    while i < entries.len()
        invariant
            0 <= i <= entries@.len(),
            ed == entries_data(entries@),
            ed.len() == entries@.len(),
            forall|j: int| 0 <= j < entries@.len() ==> #[trigger] ed[j] == (entries@[j].key@, entries@[j].val@),
            -1 <= obj_index(ed, key@) < ed.len(),
            obj_index(ed, key@) >= 0 ==> ed[obj_index(ed, key@)].0 == key@,
            forall|j: int|
                0 <= j < ed.len() && #[trigger] ed[j].0 == key@ ==> obj_index(ed, key@) >= 0
                    && obj_index(ed, key@) <= j,
            forall|j: int| 0 <= j < i ==> #[trigger] ed[j].0 != key@,
        decreases entries@.len() - i,
    {
        if crate::chars::str_eq(entries[i].key.as_str(), key) {
            proof {
                assert(ed[i as int].0 == key@);
                let r = obj_index(ed, key@);
                assert(r >= 0 && r <= i as int);
                if r < i as int {
                    assert(ed[r].0 != key@);
                }
            }
            return Some(i);
        }
        i = i + 1;
    }
    None
}

/// Stores `val` under `key` in an entry vector, as `obj_insert` describes.
pub fn obj_insert_exec(entries: &mut Vec<Entry>, key: String, val: Node)
    ensures
        entries_data(final(entries)@) == obj_insert(entries_data(old(entries)@), key@, val@),
{
    proof {
        lemma_entries_data(entries@);
    }
    let ghost ed = entries_data(entries@);
    match entry_index(entries, key.as_str()) {
        Some(i) => {
            entries.remove(i);
            entries.insert(i, Entry { key, val });
            proof {
                lemma_entries_data(entries@);
                assert(entries_data(entries@) =~= obj_insert(ed, key@, val@));
            }
        },
        None => {
            entries.push(Entry { key, val });
            proof {
                lemma_entries_data(entries@);
                assert(entries_data(entries@) =~= obj_insert(ed, key@, val@));
            }
        },
    }
}

/// Appends a child element named `name`: a first occurrence is stored
/// directly; a repeated name promotes the stored value to a list in place,
/// or extends the list that already stands there.
pub open spec fn add_child(
    entries: Seq<(Seq<char>, NodeData)>,
    name: Seq<char>,
    val: NodeData,
) -> Seq<(Seq<char>, NodeData)> {
    let i = obj_index(entries, name);
    if i < 0 {
        entries.push((name, val))
    } else {
        match entries[i].1 {
            NodeData::Arr(items) => entries.update(i, (name, NodeData::Arr(items.push(val)))),
            prev => entries.update(i, (name, NodeData::Arr(seq![prev, val]))),
        }
    }
}

/// Appends a child element in an entry vector, as `add_child` describes.
pub fn add_child_exec(entries: &mut Vec<Entry>, name: String, val: Node)
    ensures
        entries_data(final(entries)@) == add_child(entries_data(old(entries)@), name@, val@),
{
    proof {
        lemma_entries_data(entries@);
    }
    let ghost ed = entries_data(entries@);
    let ghost vdata = val@;
    let ghost ndata = name@;
    match entry_index(entries, name.as_str()) {
        Some(i) => {
            let prev = entries.remove(i);
            let ghost prev_data = prev.val@;
            proof {
                lemma_entries_data(old(entries)@);
                assert(prev_data == ed[i as int].1);
            }
            match prev.val {
                Node::Arr(mut items) => {
                    let ghost items0 = items@;
                    items.push(val);
                    proof {
                        lemma_items_data(items0);
                        lemma_items_data(items@);
                        assert(items_data(items@) =~= items_data(items0).push(vdata));
                    }
                    entries.insert(i, Entry { key: name, val: Node::Arr(items) });
                    proof {
                        lemma_entries_data(entries@);
                        assert(entries_data(entries@) =~= add_child(ed, ndata, vdata));
                    }
                },
                other => {
                    let two = Node::Arr(vec![other, val]);
                    proof {
                        if let Node::Arr(v2) = &two {
                            lemma_items_data(v2@);
                            assert(items_data(v2@) =~= seq![prev_data, vdata]);
                        }
                        assert(two@ == NodeData::Arr(seq![prev_data, vdata]));
                    }
                    entries.insert(i, Entry { key: name, val: two });
                    proof {
                        lemma_entries_data(entries@);
                        assert(entries_data(entries@) =~= add_child(ed, ndata, vdata));
                    }
                },
            }
        },
        None => {
            entries.push(Entry { key: name, val });
            proof {
                lemma_entries_data(entries@);
                assert(entries_data(entries@) =~= add_child(ed, ndata, vdata));
            }
        },
    }
}

/// A deep copy of a node, equal in value to the original.
pub fn duplicate(n: &Node) -> (r: Node)
    ensures
        r@ == n@,
    decreases n,
{
    match n {
        Node::Str(s) => Node::Str(s.clone()),
        Node::UInt(u) => Node::UInt(*u),
        Node::Dec(s) => Node::Dec(s.clone()),
        Node::Bool(b) => Node::Bool(*b),
        Node::Null => Node::Null,
        Node::Obj(entries) => {
            proof {
                lemma_entries_data(entries@);
            }
            let ghost ed = entries_data(entries@);
            let mut out: Vec<Entry> = Vec::new();
            let mut i: usize = 0;
            #[verifier::loop_isolation(false)]
            while i < entries.len()
                invariant
                    0 <= i <= entries@.len(),
                    entries_data(out@) =~= ed.subrange(0, i as int),
                decreases entries@.len() - i,
            {
                let ghost out0 = out@;
                let cv = duplicate(&entries[i].val);
                out.push(Entry { key: entries[i].key.clone(), val: cv });
                i = i + 1;
                proof {
                    lemma_entries_data(out@);
                    lemma_entries_data(out0);
                    assert(entries_data(out@) =~= ed.subrange(0, i as int));
                }
            }
            proof {
                assert(ed.subrange(0, ed.len() as int) =~= ed);
            }
            Node::Obj(out)
        },
        Node::Arr(items) => {
            proof {
                lemma_items_data(items@);
            }
            let ghost idd = items_data(items@);
            let mut out: Vec<Node> = Vec::new();
            let mut i: usize = 0;
            #[verifier::loop_isolation(false)]
            while i < items.len()
                invariant
                    0 <= i <= items@.len(),
                    items_data(out@) =~= idd.subrange(0, i as int),
                decreases items@.len() - i,
            {
                let ghost out0 = out@;
                let cv = duplicate(&items[i]);
                out.push(cv);
                i = i + 1;
                proof {
                    lemma_items_data(out@);
                    lemma_items_data(out0);
                    assert(items_data(out@) =~= idd.subrange(0, i as int));
                }
            }
            proof {
                assert(idd.subrange(0, idd.len() as int) =~= idd);
            }
            Node::Arr(out)
        },
    }
}

} // verus!

verus! {

impl Node {
    /// The node stored under `key`, when this node is a mapping that
    /// holds the key.
    pub fn get(&self, key: &str) -> (r: Option<&Node>)
        ensures
            match r {
                Some(v) => self@ is Obj && obj_has(self@->Obj_0, key@) && v@ == obj_get(
                    self@->Obj_0,
                    key@,
                ),
                None => !(self@ is Obj && obj_has(self@->Obj_0, key@)),
            },
    {
        match self {
            Node::Obj(entries) => {
                proof {
                    lemma_entries_data(entries@);
                    lemma_obj_index(entries_data(entries@), key@);
                }
                match entry_index(entries, key) {
                    Some(i) => {
                        proof {
                            assert(obj_get(entries_data(entries@), key@) == entries@[
                                i as int].val@);
                        }
                        Some(&entries[i].val)
                    },
                    None => None,
                }
            },
            _ => None,
        }
    }

    /// The string value, when this node is a string scalar.
    pub fn as_str(&self) -> (r: Option<&String>)
        ensures
            match r {
                Some(s) => self@ == NodeData::Str(s@),
                None => !(self@ is Str),
            },
    {
        match self {
            Node::Str(s) => Some(s),
            _ => None,
        }
    }

    /// The integer value, when this node is an unsigned-integer scalar.
    pub fn as_u64(&self) -> (r: Option<u64>)
        ensures
            match r {
                Some(u) => self@ == NodeData::UInt(u),
                None => !(self@ is UInt),
            },
    {
        match self {
            Node::UInt(u) => Some(*u),
            _ => None,
        }
    }

    /// The boolean value, when this node is a boolean scalar.
    pub fn as_bool(&self) -> (r: Option<bool>)
        ensures
            match r {
                Some(b) => self@ == NodeData::Bool(b),
                None => !(self@ is Bool),
            },
    {
        match self {
            Node::Bool(b) => Some(*b),
            _ => None,
        }
    }

    /// The decimal text, when this node is a decimal scalar.
    pub fn decimal_text(&self) -> (r: Option<&String>)
        ensures
            match r {
                Some(s) => self@ == NodeData::Dec(s@),
                None => !(self@ is Dec),
            },
    {
        match self {
            Node::Dec(s) => Some(s),
            _ => None,
        }
    }

    /// Whether this node is the absent value.
    pub fn is_null(&self) -> (r: bool)
        ensures
            r == (self@ is Null),
    {
        match self {
            Node::Null => true,
            _ => false,
        }
    }

    /// The items, when this node is a list.
    pub fn as_arr(&self) -> (r: Option<&Vec<Node>>)
        ensures
            match r {
                Some(v) => self@ == NodeData::Arr(items_data(v@)),
                None => !(self@ is Arr),
            },
    {
        match self {
            Node::Arr(items) => Some(items),
            _ => None,
        }
    }

    /// The entries, when this node is a mapping.
    pub fn as_obj(&self) -> (r: Option<&Vec<Entry>>)
        ensures
            match r {
                Some(v) => self@ == NodeData::Obj(entries_data(v@)),
                None => !(self@ is Obj),
            },
    {
        match self {
            Node::Obj(entries) => Some(entries),
            _ => None,
        }
    }
}

} // verus!
