//! The document tree that a pipeline definition parses to.

use vstd::prelude::*;

verus! {

/// One value of a parsed document.
#[derive(Debug, PartialEq, Eq)]
pub enum Node {
    Null,
    Bool(bool),
    /// A number, held as the text that stands for it.
    Number(String),
    Text(String),
    Sequence(Vec<Node>),
    /// The entries in declared order. Where two entries have the same key,
    /// a lookup finds the first.
    Mapping(Vec<(Node, Node)>),
    /// A value under a tag such as `!reference`.
    Tagged(String, Box<Node>),
}

/// The value of the first entry whose key is the plain text `key`.
pub open spec fn value_of(entries: Seq<(Node, Node)>, key: Seq<char>) -> Option<Node>
    decreases entries.len(),
{
    if entries.len() == 0 {
        None
    } else if entries[0].0 matches Node::Text(k) && k@ == key {
        Some(entries[0].1)
    } else {
        value_of(entries.drop_first(), key)
    }
}

impl Node {
    /// The value with every tag around it taken off.
    pub open spec fn untagged(self) -> Node
        decreases self,
    {
        match self {
            Node::Tagged(_, inner) => inner.untagged(),
            _ => self,
        }
    }

    /// The text, where the value is one.
    pub open spec fn text(self) -> Option<Seq<char>> {
        match self.untagged() {
            Node::Text(s) => Some(s@),
            _ => None,
        }
    }

    /// The elements, where the value is a sequence.
    pub open spec fn items(self) -> Option<Seq<Node>> {
        match self.untagged() {
            Node::Sequence(items) => Some(items@),
            _ => None,
        }
    }

    /// The entries, where the value is a mapping.
    pub open spec fn entries(self) -> Option<Seq<(Node, Node)>> {
        match self.untagged() {
            Node::Mapping(entries) => Some(entries@),
            _ => None,
        }
    }

    /// The value under `key`, where this is a mapping that has the key.
    pub open spec fn child(self, key: Seq<char>) -> Option<Node> {
        match self.entries() {
            Some(entries) => value_of(entries, key),
            None => None,
        }
    }

    /// The value with every tag around it taken off.
    pub fn untag(&self) -> (r: &Node)
        ensures
            *r == self.untagged(),
        decreases self,
    {
        match self {
            Node::Tagged(_, inner) => inner.untag(),
            _ => self,
        }
    }

    /// The text, where the value is one, tagged or not.
    pub fn as_str(&self) -> (r: Option<&str>)
        ensures
            match r {
                Some(s) => self.text() == Some(s@),
                None => self.text() is None,
            },
    {
        match self.untag() {
            Node::Text(s) => Some(s.as_str()),
            _ => None,
        }
    }

    /// The elements, where the value is a sequence, tagged or not.
    pub fn as_sequence(&self) -> (r: Option<&Vec<Node>>)
        ensures
            match r {
                Some(items) => self.items() == Some(items@),
                None => self.items() is None,
            },
    {
        match self.untag() {
            Node::Sequence(items) => Some(items),
            _ => None,
        }
    }

    /// The entries, where the value is a mapping, tagged or not.
    pub fn as_mapping(&self) -> (r: Option<&Vec<(Node, Node)>>)
        ensures
            match r {
                Some(entries) => self.entries() == Some(entries@),
                None => self.entries() is None,
            },
    {
        match self.untag() {
            Node::Mapping(entries) => Some(entries),
            _ => None,
        }
    }

    /// Looks `key` up in a mapping. A key matches when it is a plain text
    /// equal to `key`; the first such entry counts.
    pub fn get(&self, key: &str) -> (r: Option<&Node>)
        ensures
            match r {
                Some(node) => self.child(key@) == Some(*node),
                None => self.child(key@) is None,
            },
    {
        match self.as_mapping() {
            Some(entries) => {
                let mut i: usize = 0;
                assert(entries@.skip(0) =~= entries@);
                while i < entries.len()
                    invariant
                        i <= entries@.len(),
                        self.child(key@) == value_of(entries@, key@),
                        value_of(entries@, key@) == value_of(entries@.skip(i as int), key@),
                    decreases entries@.len() - i,
                {
                    proof {
                        assert(entries@.skip(i as int).drop_first() =~= entries@.skip(i + 1));
                    }
                    if let Node::Text(k) = &entries[i].0 {
                        if k.as_str().eq(key) {
                            return Some(&entries[i].1);
                        }
                    }
                    i += 1;
                }
                None
            },
            None => None,
        }
    }
}

/// The document that YAML text stands for, or `None` where the text is no
/// valid YAML.
pub uninterp spec fn yaml_document(text: Seq<char>) -> Option<Node>;

/// What a value of the YAML parser holds.
pub uninterp spec fn yaml_node(value: serde_yaml::Value) -> Node;

/// `serde_yaml::Value`, the parser's own tree: it is handed from the parser
/// to the copy into a `Node`, and nothing here looks inside it.
#[verifier::external_type_specification]
#[verifier::external_body]
pub struct ExYamlValue(serde_yaml::Value);

/// `serde_yaml::from_str`, read as a `serde_yaml::Value`: the parser's result
/// depends on the text alone, so it has a name; a parse error gives `None`.
#[verifier::external_body]
fn yaml_from_str(text: &str) -> (r: Option<serde_yaml::Value>)
    ensures
        match r {
            Some(value) => yaml_document(text@) == Some(yaml_node(value)),
            None => yaml_document(text@) is None,
        },
{
    serde_yaml::from_str(text).ok()
}

/// Copies a `serde_yaml::Value` into a `Node`, variant by variant: a number
/// by its `Display` text, a tag by its `Display` text, a mapping by its
/// entries in the parser's order.
#[verifier::external_body]
fn node_of_value(value: &serde_yaml::Value) -> (node: Node)
    ensures
        node == yaml_node(*value),
{
    match value {
        serde_yaml::Value::Null => Node::Null,
        serde_yaml::Value::Bool(b) => Node::Bool(*b),
        serde_yaml::Value::Number(n) => Node::Number(n.to_string()),
        serde_yaml::Value::String(s) => Node::Text(s.clone()),
        serde_yaml::Value::Sequence(items) => Node::Sequence(items.iter().map(node_of_value).collect()),
        serde_yaml::Value::Mapping(entries) => Node::Mapping(
            entries.iter().map(|(k, v)| (node_of_value(k), node_of_value(v))).collect(),
        ),
        serde_yaml::Value::Tagged(t) => Node::Tagged(t.tag.to_string(), Box::new(node_of_value(&t.value))),
    }
}

/// Parses YAML text into a document.
pub fn parse_document(text: &str) -> (r: Option<Node>)
    ensures
        r == yaml_document(text@),
{
    match yaml_from_str(text) {
        Some(value) => Some(node_of_value(&value)),
        None => None,
    }
}

} // verus!
