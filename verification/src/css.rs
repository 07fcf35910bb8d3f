//! The value model and rule-set data types of the stylesheet language.
//!
//! A declared length is carried as a fixed-point pixel count: an `i64`
//! holding thousandths of a pixel, so `12.5px` is stored as `12500`.
//! Fraction digits past the third carry no weight: `1.0004px` reads as
//! `1000` steps, exactly like `1px`.

use vstd::prelude::*;

pub use crate::parser::parse;
pub use crate::parser::SyntaxError;

verus! {

/// How many fixed-point steps make one pixel.
pub const PX_SCALE: i64 = 1000;

/// The unit of a declared length. The grammar currently knows pixels only.
#[derive(Clone, Copy, PartialEq, Eq, Structural, Debug)]
pub enum Unit {
    Px,
}

/// An RGBA color, one byte per channel.
#[derive(Clone, Copy, PartialEq, Eq, Structural, Debug)]
pub struct Color {
    pub r: u8,
    pub g: u8,
    pub b: u8,
    pub a: u8,
}

/// The right-hand side of a declaration: a bare keyword, a length with a
/// unit, or a color.
#[derive(Clone, Debug)]
pub enum Value {
    Keyword(String),
    Length(i64, Unit),
    ColorValue(Color),
}

/// The mathematical image of a [`Value`]: the keyword text as a sequence of
/// characters, lengths and colors as themselves.
pub ghost enum ValueV {
    Keyword(Seq<char>),
    Length(i64, Unit),
    ColorValue(Color),
}

impl View for Value {
    type V = ValueV;

    open spec fn view(&self) -> ValueV {
        match self {
            Value::Keyword(s) => ValueV::Keyword(s@),
            Value::Length(n, u) => ValueV::Length(*n, *u),
            Value::ColorValue(c) => ValueV::ColorValue(*c),
        }
    }
}

impl ValueV {
    /// Pixel extraction: the fixed-point pixel count of a pixel length,
    /// and zero for every other value.
    pub open spec fn to_px(self) -> i64 {
        match self {
            ValueV::Length(n, Unit::Px) => n,
            _ => 0,
        }
    }
}

impl Value {
    /// Pixel extraction: the fixed-point pixel count of a pixel length,
    /// and zero for every other value.
    pub fn to_px(&self) -> (r: i64)
        ensures
            r == self@.to_px(),
    {
        match self {
            Value::Length(n, Unit::Px) => *n,
            _ => 0,
        }
    }
}

/// A property name together with its declared value.
#[derive(Clone, Debug)]
pub struct Declaration {
    pub name: String,
    pub value: Value,
}

/// The mathematical image of a [`Declaration`].
#[verifier::ext_equal]
pub ghost struct DeclarationV {
    pub name: Seq<char>,
    pub value: ValueV,
}

impl View for Declaration {
    type V = DeclarationV;

    open spec fn view(&self) -> DeclarationV {
        DeclarationV { name: self.name@, value: self.value@ }
    }
}

/// A simple selector: an optional tag name, an optional id, and a list of
/// class names (duplicates permitted, order irrelevant for matching).
#[derive(Clone, Debug)]
pub struct SimpleSelector {
    pub tag_name: Option<String>,
    pub id: Option<String>,
    pub class: Vec<String>,
}

/// The mathematical image of a [`SimpleSelector`].
#[verifier::ext_equal]
pub ghost struct SimpleSelectorV {
    pub tag_name: Option<Seq<char>>,
    pub id: Option<Seq<char>>,
    pub class: Seq<Seq<char>>,
}

impl View for SimpleSelector {
    type V = SimpleSelectorV;

    open spec fn view(&self) -> SimpleSelectorV {
        SimpleSelectorV {
            tag_name: match self.tag_name {
                Some(t) => Some(t@),
                None => None,
            },
            id: match self.id {
                Some(t) => Some(t@),
                None => None,
            },
            class: Seq::new(self.class@.len(), |k: int| self.class@[k]@),
        }
    }
}

/// A selector. The grammar currently knows simple selectors only.
#[derive(Clone, Debug)]
pub enum Selector {
    Simple(SimpleSelector),
}

/// The mathematical image of a [`Selector`].
#[verifier::ext_equal]
pub ghost enum SelectorV {
    Simple(SimpleSelectorV),
}

impl View for Selector {
    type V = SelectorV;

    open spec fn view(&self) -> SelectorV {
        match self {
            Selector::Simple(s) => SelectorV::Simple(s@),
        }
    }
}

/// A rule: a selector group (kept sorted, most specific first) and the
/// declarations that apply where one of the selectors matches.
#[derive(Clone, Debug)]
pub struct Rule {
    pub selectors: Vec<Selector>,
    pub declarations: Vec<Declaration>,
}

/// The mathematical image of a [`Rule`].
#[verifier::ext_equal]
pub ghost struct RuleV {
    pub selectors: Seq<SelectorV>,
    pub declarations: Seq<DeclarationV>,
}

impl View for Rule {
    type V = RuleV;

    open spec fn view(&self) -> RuleV {
        RuleV {
            selectors: Seq::new(self.selectors@.len(), |k: int| self.selectors@[k]@),
            declarations: Seq::new(self.declarations@.len(), |k: int| self.declarations@[k]@),
        }
    }
}

/// An ordered sequence of rules; immutable once parsed.
#[derive(Clone, Debug)]
pub struct Stylesheet {
    pub rules: Vec<Rule>,
}

/// The mathematical image of a [`Stylesheet`].
#[verifier::ext_equal]
pub ghost struct StylesheetV {
    pub rules: Seq<RuleV>,
}

impl View for Stylesheet {
    type V = StylesheetV;

    open spec fn view(&self) -> StylesheetV {
        StylesheetV { rules: Seq::new(self.rules@.len(), |k: int| self.rules@[k]@) }
    }
}

/// A selector's precedence score: (id-count, class-count, tag-count),
/// compared lexicographically, higher = more specific.
pub type Specificity = (usize, usize, usize);

impl SelectorV {
    /// The precedence score of a selector: one point in the first slot for
    /// an id, the number of class names in the second, one point in the
    /// third for a tag name.
    pub open spec fn specificity(self) -> (int, int, int) {
        match self {
            SelectorV::Simple(s) => (
                if s.id is Some {
                    1int
                } else {
                    0int
                },
                s.class.len() as int,
                if s.tag_name is Some {
                    1int
                } else {
                    0int
                },
            ),
        }
    }
}

impl Selector {
    /// The precedence score of this selector.
    pub fn specificity(&self) -> (r: Specificity)
        ensures
            (r.0 as int, r.1 as int, r.2 as int) == self@.specificity(),
    {
        let Selector::Simple(simple) = self;
        let a: usize = if simple.id.is_some() {
            1
        } else {
            0
        };
        let b: usize = simple.class.len();
        let c: usize = if simple.tag_name.is_some() {
            1
        } else {
            0
        };
        (a, b, c)
    }
}

/// Lexicographic order on precedence scores: `a` ranks at least as high
/// as `b`.
pub open spec fn spec_ge(a: (int, int, int), b: (int, int, int)) -> bool {
    a.0 > b.0 || (a.0 == b.0 && (a.1 > b.1 || (a.1 == b.1 && a.2 >= b.2)))
}

/// `a` ranks at least as high as `b` by specificity.
pub open spec fn sel_ge(a: SelectorV, b: SelectorV) -> bool {
    spec_ge(a.specificity(), b.specificity())
}

/// Place `x` behind every element of the (descending) list `r` that ranks
/// at least as high, so that elements of equal specificity keep their
/// original relative order.
pub open spec fn insert_by_specificity(r: Seq<SelectorV>, x: SelectorV) -> Seq<SelectorV>
    decreases r.len(),
{
    if r.len() == 0 {
        seq![x]
    } else if sel_ge(r.last(), x) {
        r.push(x)
    } else {
        insert_by_specificity(r.drop_last(), x).push(r.last())
    }
}

/// Stable insertion sort of a selector group, descending by specificity.
pub open spec fn sort_by_specificity(s: Seq<SelectorV>) -> Seq<SelectorV>
    decreases s.len(),
{
    if s.len() == 0 {
        s
    } else {
        insert_by_specificity(sort_by_specificity(s.drop_last()), s.last())
    }
}

/// The list is non-increasing in specificity.
pub open spec fn sorted_desc(s: Seq<SelectorV>) -> bool {
    forall|i: int, j: int| 0 <= i <= j < s.len() ==> sel_ge(#[trigger] s[i], #[trigger] s[j])
}

/// The subsequence of `s` whose elements score exactly `key`, in order.
pub open spec fn filter_by_score(s: Seq<SelectorV>, key: (int, int, int)) -> Seq<SelectorV>
    decreases s.len(),
{
    if s.len() == 0 {
        s
    } else if s.last().specificity() == key {
        filter_by_score(s.drop_last(), key).push(s.last())
    } else {
        filter_by_score(s.drop_last(), key)
    }
}

/// The index where `insert_by_specificity` places its new element: the
/// first index from which on every element ranks strictly below `x`.
pub open spec fn insert_pos(r: Seq<SelectorV>, x: SelectorV) -> int
    decreases r.len(),
{
    if r.len() == 0 {
        0
    } else if sel_ge(r.last(), x) {
        r.len() as int
    } else {
        insert_pos(r.drop_last(), x)
    }
}

proof fn lemma_insert_at_pos(r: Seq<SelectorV>, x: SelectorV)
    ensures
        0 <= insert_pos(r, x) <= r.len(),
        insert_by_specificity(r, x) == r.insert(insert_pos(r, x), x),
        forall|j: int| insert_pos(r, x) <= j < r.len() ==> !sel_ge(#[trigger] r[j], x),
        insert_pos(r, x) > 0 ==> sel_ge(r[insert_pos(r, x) - 1], x),
    decreases r.len(),
{
    let p = insert_pos(r, x);
    if r.len() == 0 {
        assert(insert_by_specificity(r, x) =~= r.insert(0, x));
    } else if sel_ge(r.last(), x) {
        assert(insert_by_specificity(r, x) =~= r.insert(r.len() as int, x));
    } else {
        lemma_insert_at_pos(r.drop_last(), x);
        assert(insert_by_specificity(r, x) =~= r.insert(p, x));
        assert(forall|j: int| p <= j < r.len() - 1 ==> r.drop_last()[j] == #[trigger] r[j]);
    }
}

proof fn lemma_insert_sorted(r: Seq<SelectorV>, x: SelectorV)
    requires
        sorted_desc(r),
    ensures
        sorted_desc(insert_by_specificity(r, x)),
        insert_by_specificity(r, x).len() == r.len() + 1,
    decreases r.len(),
{
    lemma_insert_at_pos(r, x);
    let p = insert_pos(r, x);
    let out = r.insert(p, x);
    assert forall|i: int, j: int| 0 <= i <= j < out.len() implies sel_ge(out[i], out[j]) by {
        // out[k] is r[k] for k < p, x at p, and r[k - 1] past p.
        if i < p && j > p {
            assert(!sel_ge(r[j - 1], x));
        }
    }
}

proof fn lemma_insert_filter(r: Seq<SelectorV>, x: SelectorV, key: (int, int, int))
    ensures
        filter_by_score(insert_by_specificity(r, x), key) == if x.specificity() == key {
            filter_by_score(r, key).push(x)
        } else {
            filter_by_score(r, key)
        },
    decreases r.len(),
{
    if r.len() == 0 {
        assert(seq![x].drop_last() =~= r);
    } else if sel_ge(r.last(), x) {
        assert(r.push(x).drop_last() =~= r);
    } else {
        lemma_insert_filter(r.drop_last(), x, key);
        let inner = insert_by_specificity(r.drop_last(), x);
        assert(inner.push(r.last()).drop_last() =~= inner);
    }
}

/// The mathematical images of a list of selectors, in order.
pub open spec fn sel_views(s: Seq<Selector>) -> Seq<SelectorV> {
    Seq::new(s.len(), |k: int| s[k]@)
}

fn specificity_ge(a: Specificity, b: Specificity) -> (r: bool)
    ensures
        r == spec_ge((a.0 as int, a.1 as int, a.2 as int), (b.0 as int, b.1 as int, b.2 as int)),
{
    a.0 > b.0 || (a.0 == b.0 && (a.1 > b.1 || (a.1 == b.1 && a.2 >= b.2)))
}

fn find_insert_pos(out: &Vec<Selector>, x: &Selector, k: usize) -> (r: usize)
    requires
        k <= out@.len(),
        forall|j: int| k <= j < out@.len() ==> !sel_ge(#[trigger] sel_views(out@)[j], x@),
    ensures
        r <= out@.len(),
        forall|j: int| r <= j < out@.len() ==> !sel_ge(#[trigger] sel_views(out@)[j], x@),
        r > 0 ==> sel_ge(sel_views(out@)[r - 1], x@),
    decreases k,
{
    if k == 0 {
        0
    } else {
        let prev = out[k - 1].specificity();
        let xs = x.specificity();
        if specificity_ge(prev, xs) {
            k
        } else {
            find_insert_pos(out, x, k - 1)
        }
    }
}

fn insert_selector(out: &mut Vec<Selector>, x: Selector)
    ensures
        sel_views(final(out)@) == insert_by_specificity(sel_views(old(out)@), x@),
{
    let len = out.len();
    let k = find_insert_pos(out, &x, len);
    proof {
        let v = sel_views(out@);
        lemma_insert_at_pos(v, x@);
        let p = insert_pos(v, x@);
        // Both k and p point at the first slot whose suffix ranks below x.
        if k < p {
            assert(!sel_ge(v[p - 1], x@));
        }
        if p < k {
            assert(!sel_ge(v[k - 1], x@));
        }
    }
    out.insert(k, x);
    proof {
        assert(sel_views(out@) =~= insert_by_specificity(sel_views(old(out)@), x@));
    }
}

/// Sort a selector group descending by specificity with a stable
/// insertion sort.
pub(crate) fn sort_selectors(v: Vec<Selector>) -> (r: Vec<Selector>)
    ensures
        sel_views(r@) == sort_by_specificity(sel_views(v@)),
{
    let mut out: Vec<Selector> = Vec::new();
    let mut rest = v;
    let ghost all = sel_views(rest@);
    let ghost mut done: int = 0;
    proof {
        assert(sel_views(out@) =~= sort_by_specificity(all.take(0)));
        assert(sel_views(rest@) =~= all.skip(0));
    }
    while rest.len() > 0
        invariant
            0 <= done,
            done + rest@.len() == all.len(),
            sel_views(rest@) == all.skip(done),
            sel_views(out@) == sort_by_specificity(all.take(done)),
        decreases rest@.len(),
    {
        let ghost pre = rest@;
        let x = rest.remove(0);
        proof {
            assert(x@ == all[done]) by {
                assert(sel_views(pre)[0] == all.skip(done)[0]);
            }
            assert forall|j: int| 0 <= j < sel_views(rest@).len() implies sel_views(rest@)[j]
                == all.skip(done + 1)[j] by {
                assert(rest@[j] == pre[j + 1]);
                assert(sel_views(pre)[j + 1] == all.skip(done)[j + 1]);
            }
            assert(sel_views(rest@) =~= all.skip(done + 1));
        }
        insert_selector(&mut out, x);
        proof {
            assert(all.take(done + 1).drop_last() =~= all.take(done));
            assert(all.take(done + 1).last() == all[done]);
            done = done + 1;
        }
    }
    proof {
        assert(all.take(done) =~= all);
    }
    out
}

/// The law of selector ordering: sorting a rule's selector group by
/// specificity yields a list that is non-increasing in specificity, and the
/// sort is stable — for every score, the selectors holding that score keep
/// exactly their original relative order.
pub proof fn lemma_selector_sort_stable(s: Seq<SelectorV>)
    ensures
        sorted_desc(sort_by_specificity(s)),
        sort_by_specificity(s).len() == s.len(),
        forall|key: (int, int, int)|
            #[trigger] filter_by_score(sort_by_specificity(s), key) == filter_by_score(s, key),
    decreases s.len(),
{
    if s.len() == 0 {
    } else {
        lemma_selector_sort_stable(s.drop_last());
        let inner = sort_by_specificity(s.drop_last());
        lemma_insert_sorted(inner, s.last());
        assert forall|key: (int, int, int)|
            #[trigger] filter_by_score(sort_by_specificity(s), key) == filter_by_score(s, key) by {
            lemma_insert_filter(inner, s.last(), key);
        }
    }
}

} // verus!
