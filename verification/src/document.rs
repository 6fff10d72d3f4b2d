//! The document model: documents, nodes, entries, values and identifiers,
//! with their mathematical views.

use vstd::prelude::*;
use crate::text::str_eq;

verus! {

/// The mathematical value of an entry.
pub enum SpecValue {
    String(Seq<char>),
    Integer(int),
    /// A decimal number with a fraction or an exponent, or one of the
    /// keywords `inf`, `-inf`, `nan`, kept as its text without digit
    /// separators.
    Float(Seq<char>),
    Bool(bool),
    Null,
}

pub struct SpecEntry {
    pub ty: Option<Seq<char>>,
    pub name: Option<Seq<char>>,
    pub value: SpecValue,
}

pub struct SpecNode {
    pub ty: Option<Seq<char>>,
    pub name: Seq<char>,
    pub entries: Seq<SpecEntry>,
    pub children: Option<Seq<SpecNode>>,
}

/// A name: of a node, of a property, or of a type annotation.
#[derive(Debug, Clone, PartialEq)]
pub struct KdlIdentifier {
    pub value: String,
}

/// The value of an argument or of a property.
#[derive(Debug, Clone, PartialEq)]
pub enum KdlValue {
    String(String),
    Integer(i64),
    /// The text of a decimal number with a fraction or an exponent (digit
    /// separators removed), or `inf`, `-inf`, `nan`.
    Float(String),
    Bool(bool),
    Null,
}

/// An argument (no name) or a property (a name), with an optional type
/// annotation.
#[derive(Debug, Clone, PartialEq)]
pub struct KdlEntry {
    pub ty: Option<KdlIdentifier>,
    pub name: Option<KdlIdentifier>,
    pub value: KdlValue,
}

#[derive(Debug, PartialEq)]
pub struct KdlNode {
    pub ty: Option<KdlIdentifier>,
    pub name: KdlIdentifier,
    pub entries: Vec<KdlEntry>,
    pub children: Option<KdlDocument>,
}

#[derive(Debug, PartialEq)]
pub struct KdlDocument {
    pub nodes: Vec<KdlNode>,
}

pub open spec fn ident_opt_view(i: Option<KdlIdentifier>) -> Option<Seq<char>> {
    match i {
        Some(id) => Some(id.value@),
        None => None,
    }
}

impl KdlValue {
    pub open spec fn view(&self) -> SpecValue {
        match self {
            KdlValue::String(s) => SpecValue::String(s@),
            KdlValue::Integer(i) => SpecValue::Integer(*i as int),
            KdlValue::Float(s) => SpecValue::Float(s@),
            KdlValue::Bool(b) => SpecValue::Bool(*b),
            KdlValue::Null => SpecValue::Null,
        }
    }

    /// The string, for a string value.
    pub fn as_string(&self) -> (r: Option<&str>)
        ensures
            match self@ {
                SpecValue::String(s) => r matches Some(x) && x@ == s,
                _ => r is None,
            },
    {
        match self {
            KdlValue::String(s) => Some(s.as_str()),
            _ => None,
        }
    }

    /// The integer, for an integer value.
    pub fn as_i64(&self) -> (r: Option<i64>)
        ensures
            match self@ {
                SpecValue::Integer(i) => r == Some(i as i64),
                _ => r is None,
            },
    {
        match self {
            KdlValue::Integer(i) => Some(*i),
            _ => None,
        }
    }

    /// The text of a float value.
    pub fn float_text(&self) -> (r: Option<&str>)
        ensures
            match self@ {
                SpecValue::Float(s) => r matches Some(x) && x@ == s,
                _ => r is None,
            },
    {
        match self {
            KdlValue::Float(s) => Some(s.as_str()),
            _ => None,
        }
    }

    /// The boolean, for a boolean value.
    pub fn as_bool(&self) -> (r: Option<bool>)
        ensures
            match self@ {
                SpecValue::Bool(b) => r == Some(b),
                _ => r is None,
            },
    {
        match self {
            KdlValue::Bool(b) => Some(*b),
            _ => None,
        }
    }

    pub fn is_null(&self) -> (r: bool)
        ensures
            r == (self@ is Null),
    {
        match self {
            KdlValue::Null => true,
            _ => false,
        }
    }

    pub fn is_string(&self) -> (r: bool)
        ensures
            r == (self@ is String),
    {
        match self {
            KdlValue::String(_) => true,
            _ => false,
        }
    }

    pub fn is_i64(&self) -> (r: bool)
        ensures
            r == (self@ is Integer),
    {
        match self {
            KdlValue::Integer(_) => true,
            _ => false,
        }
    }

    pub fn is_float(&self) -> (r: bool)
        ensures
            r == (self@ is Float),
    {
        match self {
            KdlValue::Float(_) => true,
            _ => false,
        }
    }

    pub fn is_bool(&self) -> (r: bool)
        ensures
            r == (self@ is Bool),
    {
        match self {
            KdlValue::Bool(_) => true,
            _ => false,
        }
    }
}

impl KdlIdentifier {
    /// The text of the identifier.
    pub fn value(&self) -> (r: &str)
        ensures
            r@ == self.value@,
    {
        self.value.as_str()
    }
}

impl KdlEntry {
    pub open spec fn view(&self) -> SpecEntry {
        SpecEntry { ty: ident_opt_view(self.ty), name: ident_opt_view(self.name), value: self.value@ }
    }

    /// The name of a property; `None` for an argument.
    pub fn name(&self) -> (r: Option<&KdlIdentifier>)
        ensures
            match r {
                Some(x) => self.name == Some(*x),
                None => self.name is None,
            },
    {
        self.name.as_ref()
    }

    /// The type annotation of the value.
    pub fn ty(&self) -> (r: Option<&KdlIdentifier>)
        ensures
            match r {
                Some(x) => self.ty == Some(*x),
                None => self.ty is None,
            },
    {
        self.ty.as_ref()
    }

    pub fn value(&self) -> (r: &KdlValue)
        ensures
            r == &self.value,
    {
        &self.value
    }
}

pub open spec fn entries_view(v: Seq<KdlEntry>) -> Seq<SpecEntry> {
    v.map_values(|e: KdlEntry| e@)
}

pub open spec fn node_view(n: KdlNode) -> SpecNode
    decreases n,
{
    SpecNode {
        ty: ident_opt_view(n.ty),
        name: n.name.value@,
        entries: entries_view(n.entries@),
        children: match n.children {
            Some(d) => Some(nodes_view(d.nodes@)),
            None => None,
        },
    }
}

pub open spec fn nodes_view(v: Seq<KdlNode>) -> Seq<SpecNode>
    decreases v,
{
    Seq::new(v.len(), |i: int| if 0 <= i < v.len() { node_view(v[i]) } else { arbitrary() })
}

/// The index of the rightmost property of `entries` named `key`.
pub open spec fn spec_property_index(entries: Seq<SpecEntry>, key: Seq<char>) -> Option<int>
    decreases entries.len(),
{
    if entries.len() == 0 {
        None
    } else if entries.last().name == Some(key) {
        Some(entries.len() - 1)
    } else {
        spec_property_index(entries.drop_last(), key)
    }
}

impl KdlNode {
    pub open spec fn view(&self) -> SpecNode {
        node_view(*self)
    }

    pub fn name(&self) -> (r: &KdlIdentifier)
        ensures
            r == &self.name,
    {
        &self.name
    }

    /// The type annotation of the node.
    pub fn ty(&self) -> (r: Option<&KdlIdentifier>)
        ensures
            match r {
                Some(x) => self.ty == Some(*x),
                None => self.ty is None,
            },
    {
        self.ty.as_ref()
    }

    /// Arguments and properties, in document order.
    pub fn entries(&self) -> (r: &[KdlEntry])
        ensures
            r@ == self.entries@,
    {
        self.entries.as_slice()
    }

    /// The children block, if the node has one.
    pub fn children(&self) -> (r: Option<&KdlDocument>)
        ensures
            match r {
                Some(x) => self.children == Some(*x),
                None => self.children is None,
            },
    {
        self.children.as_ref()
    }

    /// The property named `key`; where the name occurs more than once, the
    /// rightmost one.
    pub fn get(&self, key: &str) -> (r: Option<&KdlEntry>)
        ensures
            match spec_property_index(entries_view(self.entries@), key@) {
                Some(i) => r == Some(&self.entries@[i]),
                None => r is None,
            },
    {
        let mut i = self.entries.len();
        assert(entries_view(self.entries@).take(i as int) =~= entries_view(self.entries@));
        while i > 0
            invariant
                i <= self.entries@.len(),
                spec_property_index(entries_view(self.entries@), key@) == spec_property_index(
                    entries_view(self.entries@).take(i as int),
                    key@,
                ),
            decreases i,
        {
            let ghost ev = entries_view(self.entries@);
            assert(ev.take(i as int).drop_last() =~= ev.take(i - 1));
            let e = &self.entries[i - 1];
            let hit = match &e.name {
                Some(n) => str_eq(n.value.as_str(), key),
                None => false,
            };
            if hit {
                return Some(e);
            }
            i = i - 1;
        }
        assert(entries_view(self.entries@).take(0) =~= Seq::<SpecEntry>::empty());
        None
    }
}

impl KdlDocument {
    pub open spec fn view(&self) -> Seq<SpecNode> {
        nodes_view(self.nodes@)
    }

    /// The top-level nodes, in document order.
    pub fn nodes(&self) -> (r: &[KdlNode])
        ensures
            r@ == self.nodes@,
    {
        self.nodes.as_slice()
    }
}

} // verus!
