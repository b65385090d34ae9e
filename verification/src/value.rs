//! Values held by graph properties.

use std::cmp::Ordering;
use vstd::prelude::*;
use crate::render::{float_decimal_string, float_shown, int_decimal};
use crate::text::{chars_eq, chars_less, chars_lt, chars_of, lemma_chars_less_irreflexive, lemma_chars_less_total};

verus! {

/// A soul is the globally unique identifier for a node in the graph.
pub type Soul = String;

/// A reference (link) to another node by its soul.
#[derive(Debug, PartialEq, Eq)]
pub struct Link {
    pub soul: Soul,
}

impl Clone for Link {
    fn clone(&self) -> (r: Self)
        ensures
            r == *self,
    {
        Link { soul: self.soul.clone() }
    }
}

/// Primitive value types in the graph. Nested objects are not values: they
/// become separate nodes, referred to by links.
///
/// A number is held by its decimal rendering, as Rust's `Display` writes a
/// floating-point number (`42.0` is held as "42", `0.5` as "0.5").
#[derive(Debug, PartialEq)]
pub enum Value {
    Null,
    Bool(bool),
    Number(String),
    Text(String),
    Link(Link),
}

/// The mathematical model of a [`Value`].
pub enum ValueView {
    Null,
    Bool(bool),
    Number(Seq<char>),
    Text(Seq<char>),
    Link(Seq<char>),
}

impl View for Value {
    type V = ValueView;

    open spec fn view(&self) -> ValueView {
        match self {
            Value::Null => ValueView::Null,
            Value::Bool(b) => ValueView::Bool(*b),
            Value::Number(n) => ValueView::Number(n@),
            Value::Text(s) => ValueView::Text(s@),
            Value::Link(l) => ValueView::Link(l.soul@),
        }
    }
}

impl Clone for Value {
    fn clone(&self) -> (r: Self)
        ensures
            r == *self,
    {
        match self {
            Value::Null => Value::Null,
            Value::Bool(b) => Value::Bool(*b),
            Value::Number(n) => Value::Number(n.clone()),
            Value::Text(s) => Value::Text(s.clone()),
            Value::Link(l) => Value::Link(l.clone()),
        }
    }
}

/// The canonical text by which values are ordered when their states tie:
/// nothing for null, "true" or "false", a number's rendering, the text
/// itself, and "~" before the soul of a link.
pub open spec fn lex_key(v: ValueView) -> Seq<char> {
    match v {
        ValueView::Null => Seq::empty(),
        ValueView::Bool(b) => if b {
            seq!['t', 'r', 'u', 'e']
        } else {
            seq!['f', 'a', 'l', 's', 'e']
        },
        ValueView::Number(n) => n,
        ValueView::Text(s) => s,
        ValueView::Link(soul) => seq!['~'] + soul,
    }
}

impl Value {
    pub fn text(s: &str) -> (r: Value)
        ensures
            r@ == ValueView::Text(s@),
    {
        Value::Text(s.to_string())
    }

    /// A number, given by its decimal rendering.
    pub fn number(rendered: &str) -> (r: Value)
        ensures
            r@ == ValueView::Number(rendered@),
    {
        Value::Number(rendered.to_string())
    }

    pub fn link(soul: &str) -> (r: Value)
        ensures
            r@ == ValueView::Link(soul@),
    {
        Value::Link(Link { soul: soul.to_string() })
    }

    pub fn is_null(&self) -> (r: bool)
        ensures
            r == (self@ is Null),
    {
        match self {
            Value::Null => true,
            _ => false,
        }
    }

    pub fn as_text(&self) -> (r: Option<&str>)
        ensures
            match self@ {
                ValueView::Text(s) => r is Some && r->0@ == s,
                _ => r is None,
            },
    {
        match self {
            Value::Text(s) => Some(s.as_str()),
            _ => None,
        }
    }

    /// The rendering of a number.
    pub fn as_number(&self) -> (r: Option<&str>)
        ensures
            match self@ {
                ValueView::Number(n) => r is Some && r->0@ == n,
                _ => r is None,
            },
    {
        match self {
            Value::Number(n) => Some(n.as_str()),
            _ => None,
        }
    }

    pub fn as_link(&self) -> (r: Option<&Soul>)
        ensures
            match self@ {
                ValueView::Link(soul) => r is Some && r->0@ == soul,
                _ => r is None,
            },
    {
        match self {
            Value::Link(link) => Some(&link.soul),
            _ => None,
        }
    }

    /// Lexicographic comparison of the values' canonical texts, used to
    /// break ties between writes with the same state.
    pub fn lexicographic_cmp(&self, other: &Value) -> (r: Ordering)
        ensures
            (r == Ordering::Less) == chars_less(lex_key(self@), lex_key(other@)),
            (r == Ordering::Equal) == (lex_key(self@) == lex_key(other@)),
            (r == Ordering::Greater) == chars_less(lex_key(other@), lex_key(self@)),
    {
        let a = self.lex_chars();
        let b = other.lex_chars();
        proof {
            lemma_chars_less_total(a@, b@);
            lemma_chars_less_irreflexive(a@);
        }
        if chars_lt(&a, &b) {
            Ordering::Less
        } else if chars_eq(&a, &b) {
            Ordering::Equal
        } else {
            Ordering::Greater
        }
    }

    fn lex_chars(&self) -> (r: Vec<char>)
        ensures
            r@ == lex_key(self@),
    {
        match self {
            Value::Null => Vec::new(),
            Value::Bool(b) => {
                let r = if *b {
                    vec!['t', 'r', 'u', 'e']
                } else {
                    vec!['f', 'a', 'l', 's', 'e']
                };
                proof {
                    if *b {
                        assert(r@ =~= seq!['t', 'r', 'u', 'e']);
                    } else {
                        assert(r@ =~= seq!['f', 'a', 'l', 's', 'e']);
                    }
                }
                r
            },
            Value::Number(n) => chars_of(n.as_str()),
            Value::Text(s) => chars_of(s.as_str()),
            Value::Link(link) => {
                let mut r = vec!['~'];
                let mut rest = chars_of(link.soul.as_str());
                r.append(&mut rest);
                proof {
                    assert(r@ =~= seq!['~'] + link.soul@);
                }
                r
            },
        }
    }
}

impl From<&str> for Value {
    fn from(s: &str) -> (r: Value)
        ensures
            r@ == ValueView::Text(s@),
    {
        Value::Text(s.to_string())
    }
}

impl vstd::std_specs::convert::FromSpecImpl<&str> for Value {
    open spec fn obeys_from_spec() -> bool {
        false
    }

    open spec fn from_spec(v: &str) -> Value {
        Value::Null
    }
}

impl From<String> for Value {
    fn from(s: String) -> (r: Value)
        ensures
            r@ == ValueView::Text(s@),
    {
        Value::Text(s)
    }
}

impl vstd::std_specs::convert::FromSpecImpl<String> for Value {
    open spec fn obeys_from_spec() -> bool {
        true
    }

    open spec fn from_spec(v: String) -> Value {
        Value::Text(v)
    }
}

impl From<i64> for Value {
    /// An integer becomes the number `n as f64`, written as Rust writes
    /// that float: `n` itself up to 2^53 in size, else `n` rounded to the
    /// nearest float and written with its shortest digits.
    fn from(n: i64) -> (r: Value)
        ensures
            r@ == ValueView::Number(int_decimal(float_shown(n as int))),
    {
        Value::Number(float_decimal_string(n))
    }
}

impl vstd::std_specs::convert::FromSpecImpl<i64> for Value {
    open spec fn obeys_from_spec() -> bool {
        false
    }

    open spec fn from_spec(v: i64) -> Value {
        Value::Null
    }
}

impl From<bool> for Value {
    fn from(b: bool) -> (r: Value)
        ensures
            r@ == ValueView::Bool(b),
    {
        Value::Bool(b)
    }
}

impl vstd::std_specs::convert::FromSpecImpl<bool> for Value {
    open spec fn obeys_from_spec() -> bool {
        true
    }

    open spec fn from_spec(v: bool) -> Value {
        Value::Bool(v)
    }
}

} // verus!
