//! The styled element tree that layout consumes: each node carries the
//! declarations that apply to it, queried through a narrow interface —
//! `display`, `value`, and `lookup`.

use vstd::prelude::*;
use vstd::string::*;
use crate::css::{Declaration, Value, ValueV};

verus! {

/// How a node participates in layout.
#[derive(Clone, Copy, PartialEq, Eq, Structural, Debug)]
pub enum Display {
    Block,
    Inline,
    DisplayNone,
}

/// A styled element: its specified declarations and its children, in
/// document order. The tree is read-only input to layout.
#[derive(Debug)]
pub struct StyledNode {
    pub specified: Vec<Declaration>,
    pub children: Vec<StyledNode>,
}

/// The first declared value under `name`, if any.
pub open spec fn find_value(decls: Seq<Declaration>, name: Seq<char>) -> Option<ValueV>
    decreases decls.len(),
{
    if decls.len() == 0 {
        None
    } else if decls[0].name@ == name {
        Some(decls[0].value@)
    } else {
        find_value(decls.drop_first(), name)
    }
}

/// The node's declared value under `name`, if any.
pub open spec fn node_value(n: StyledNode, name: Seq<char>) -> Option<ValueV> {
    find_value(n.specified@, name)
}

/// The first declared of `name` and `fallback_name`, else the default.
pub open spec fn node_lookup(
    n: StyledNode,
    name: Seq<char>,
    fallback_name: Seq<char>,
    default: ValueV,
) -> ValueV {
    match node_value(n, name) {
        Some(v) => v,
        None => match node_value(n, fallback_name) {
            Some(v) => v,
            None => default,
        },
    }
}

/// The node's display mode: the `display` keyword where declared as
/// `block` or `none`, everything else is inline.
pub open spec fn node_display(n: StyledNode) -> Display {
    match node_value(n, "display"@) {
        Some(ValueV::Keyword(s)) => if s == "block"@ {
            Display::Block
        } else if s == "none"@ {
            Display::DisplayNone
        } else {
            Display::Inline
        },
        _ => Display::Inline,
    }
}

fn str_eq_from(a: &str, b: &str, i: usize) -> (r: bool)
    requires
        a@.len() == b@.len(),
        i <= a@.len(),
        forall|k: int| 0 <= k < i ==> a@[k] == b@[k],
    ensures
        r == (a@ == b@),
    decreases a@.len() - i,
{
    if i >= a.unicode_len() {
        proof {
            assert(a@ =~= b@);
        }
        true
    } else {
        let ca = a.get_char(i);
        let cb = b.get_char(i);
        if ca == cb {
            str_eq_from(a, b, i + 1)
        } else {
            proof {
                if a@ == b@ {
                    assert(a@[i as int] == b@[i as int]);
                }
            }
            false
        }
    }
}

/// Character-wise string equality.
pub fn str_eq(a: &str, b: &str) -> (r: bool)
    ensures
        r == (a@ == b@),
{
    let la = a.unicode_len();
    let lb = b.unicode_len();
    if la != lb {
        proof {
            if a@ == b@ {
                assert(a@.len() == b@.len());
            }
        }
        false
    } else {
        str_eq_from(a, b, 0)
    }
}

fn find_value_from<'a>(decls: &'a Vec<Declaration>, name: &str, i: usize) -> (r: Option<&'a Value>)
    requires
        i <= decls@.len(),
    ensures
        (match r {
            Some(v) => find_value(decls@.skip(i as int), name@) == Some(v@),
            None => find_value(decls@.skip(i as int), name@) is None,
        }),
    decreases decls@.len() - i,
{
    if i >= decls.len() {
        proof {
            assert(decls@.skip(i as int) =~= Seq::<Declaration>::empty());
        }
        None
    } else {
        proof {
            assert(decls@.skip(i as int)[0] == decls@[i as int]);
            assert(decls@.skip(i as int).drop_first() =~= decls@.skip(i as int + 1));
        }
        let d = &decls[i];
        if str_eq(d.name.as_str(), name) {
            Some(&d.value)
        } else {
            find_value_from(decls, name, i + 1)
        }
    }
}

impl StyledNode {
    /// The first declared value under `name`, if any.
    pub fn value(&self, name: &str) -> (r: Option<&Value>)
        ensures
            (match r {
                Some(v) => node_value(*self, name@) == Some(v@),
                None => node_value(*self, name@) is None,
            }),
    {
        proof {
            assert(self.specified@.skip(0) =~= self.specified@);
        }
        find_value_from(&self.specified, name, 0)
    }

    /// The first declared of `name` and `fallback_name`, else the default.
    pub fn lookup<'a>(&'a self, name: &str, fallback_name: &str, default: &'a Value) -> (r:
        &'a Value)
        ensures
            r@ == node_lookup(*self, name@, fallback_name@, default@),
    {
        match self.value(name) {
            Some(v) => v,
            None => match self.value(fallback_name) {
                Some(v) => v,
                None => default,
            },
        }
    }

    /// The node's display mode.
    pub fn display(&self) -> (r: Display)
        ensures
            r == node_display(*self),
    {
        match self.value("display") {
            Some(v) => match v {
                Value::Keyword(s) => {
                    if str_eq(s.as_str(), "block") {
                        Display::Block
                    } else if str_eq(s.as_str(), "none") {
                        Display::DisplayNone
                    } else {
                        Display::Inline
                    }
                },
                _ => Display::Inline,
            },
            None => Display::Inline,
        }
    }
}

} // verus!
