//! Which selectors match an element, and which declarations a stylesheet
//! gives to it.
//!
//! A rule applies to an element if any of its selectors matches. The rules
//! that apply give their declarations in the order of the stylesheet, and
//! where a property is declared more than once the last declaration
//! stands.

use vstd::prelude::*;
use crate::cssom::DeclarationProperty;
use crate::cssom::DeclarationValue;
use crate::cssom::DeclarationView;
use crate::cssom::PropertyView;
use crate::cssom::Rule;
use crate::cssom::RuleView;
use crate::cssom::Selector;
use crate::cssom::SelectorView;
use crate::cssom::StyleSheet;
use crate::cssom::ValueView;
use crate::dom::Element;
use crate::dom::ElementView;
use crate::dom::KeyView;
use crate::ordered::distinct_keys;
use crate::ordered::lemma_pairs_map_keys;
use crate::ordered::lemma_pairs_map_update;
use crate::ordered::lemma_pairs_map_value;
use crate::ordered::pairs_map;
use crate::text::same_text;

verus! {

/// Whether an element has the attribute `key` with the value `text`.
pub open spec fn has_attribute(element: ElementView, key: KeyView, text: Seq<char>) -> bool {
    element.attributes.contains_key(key) && element.attributes[key] == text
}

/// Whether a selector matches an element. A tag matches the element with
/// that tag. A class or an id matches the element that has the attribute
/// `class` or `id` with that very text as its value; an element without
/// the attribute is matched by no class or id, not even by the empty one.
/// Where a class or an id stands on top of another selector, that one has
/// to match the same element too. A selector with a combinator matches no
/// element: it is not looked at beyond its shape.
pub open spec fn selector_matches(selector: SelectorView, element: ElementView) -> bool
    decreases selector,
{
    match selector {
        SelectorView::Tag(tag) => tag == element.tag_name,
        SelectorView::Class(None, class) => has_attribute(element, KeyView::Class, class),
        SelectorView::Class(Some(left), class) => selector_matches(*left, element)
            && has_attribute(element, KeyView::Class, class),
        SelectorView::Id(None, id) => has_attribute(element, KeyView::Id, id),
        SelectorView::Id(Some(left), id) => selector_matches(*left, element) && has_attribute(
            element,
            KeyView::Id,
            id,
        ),
        SelectorView::Child(_, _) => false,
        SelectorView::Adjacent(_, _) => false,
    }
}

/// Whether a rule applies to an element: whether any of its selectors
/// matches it.
pub open spec fn rule_applies(rule: RuleView, element: ElementView) -> bool {
    exists|i: int|
        0 <= i < rule.selectors.len() && selector_matches(#[trigger] rule.selectors[i], element)
}

/// The styles `styles` after the declarations `declarations`, each one in
/// its turn giving its value to its property.
pub open spec fn declare_all(
    styles: Map<PropertyView, ValueView>,
    declarations: Seq<DeclarationView>,
) -> Map<PropertyView, ValueView>
    decreases declarations.len(),
{
    if declarations.len() == 0 {
        styles
    } else {
        declare_all(styles, declarations.drop_last()).insert(
            declarations.last().property,
            declarations.last().value,
        )
    }
}

/// The styles that the rules of a stylesheet give to an element: the
/// declarations of the rules that apply, in the order of the rules.
pub open spec fn resolved(rules: Seq<RuleView>, element: ElementView) -> Map<
    PropertyView,
    ValueView,
>
    decreases rules.len(),
{
    if rules.len() == 0 {
        Map::empty()
    } else {
        let before = resolved(rules.drop_last(), element);
        if rule_applies(rules.last(), element) {
            declare_all(before, rules.last().declarations)
        } else {
            before
        }
    }
}

/// Whether `property` is declared in `declarations` at `k`, and nowhere
/// after `k`.
pub open spec fn declared_last_at(
    declarations: Seq<DeclarationView>,
    property: PropertyView,
    k: int,
) -> bool {
    &&& 0 <= k < declarations.len()
    &&& declarations[k].property == property
    &&& forall|j: int| k < j < declarations.len() ==> (#[trigger] declarations[j]).property != property
}

/// Whether `property` is declared nowhere in `declarations`.
pub open spec fn undeclared(declarations: Seq<DeclarationView>, property: PropertyView) -> bool {
    forall|j: int| 0 <= j < declarations.len() ==> (#[trigger] declarations[j]).property != property
}

/// After declarations of which the last one for `property` stands at `k`,
/// the property has the value declared there.
pub proof fn lemma_last_declaration_stands(
    styles: Map<PropertyView, ValueView>,
    declarations: Seq<DeclarationView>,
    property: PropertyView,
    k: int,
)
    requires
        declared_last_at(declarations, property, k),
    ensures
        declare_all(styles, declarations).contains_key(property),
        declare_all(styles, declarations)[property] == declarations[k].value,
    decreases declarations.len(),
{
    if k < declarations.len() - 1 {
        let front = declarations.drop_last();
        assert(declared_last_at(front, property, k)) by {
            assert forall|j: int| k < j < front.len() implies (#[trigger] front[j]).property
                != property by {
                assert(declarations[j].property != property);
            }
        }
        lemma_last_declaration_stands(styles, front, property, k);
        assert(declarations[declarations.len() - 1].property != property);
    }
}

/// Declarations that do not name `property` leave it as it was.
pub proof fn lemma_other_declarations_keep(
    styles: Map<PropertyView, ValueView>,
    declarations: Seq<DeclarationView>,
    property: PropertyView,
)
    requires
        undeclared(declarations, property),
    ensures
        declare_all(styles, declarations).contains_key(property) == styles.contains_key(property),
        styles.contains_key(property) ==> declare_all(styles, declarations)[property]
            == styles[property],
    decreases declarations.len(),
{
    if declarations.len() > 0 {
        let front = declarations.drop_last();
        assert(undeclared(front, property)) by {
            assert forall|j: int| 0 <= j < front.len() implies (#[trigger] front[j]).property
                != property by {
                assert(declarations[j].property != property);
            }
        }
        lemma_other_declarations_keep(styles, front, property);
        assert(declarations[declarations.len() - 1].property != property);
    }
}

/// The last declaration wins: where the rule at `i` applies to the
/// element and declares `property` for the last time at `k`, and no rule
/// after it that applies declares the property, the element has for the
/// property the value declared there.
pub proof fn lemma_last_declaration_wins(
    rules: Seq<RuleView>,
    element: ElementView,
    property: PropertyView,
    i: int,
    k: int,
)
    requires
        0 <= i < rules.len(),
        rule_applies(rules[i], element),
        declared_last_at(rules[i].declarations, property, k),
        forall|j: int|
            i < j < rules.len() && rule_applies(#[trigger] rules[j], element) ==> undeclared(
                rules[j].declarations,
                property,
            ),
    ensures
        resolved(rules, element).contains_key(property),
        resolved(rules, element)[property] == rules[i].declarations[k].value,
    decreases rules.len(),
{
    let front = rules.drop_last();
    let before = resolved(front, element);
    if i == rules.len() - 1 {
        lemma_last_declaration_stands(before, rules[i].declarations, property, k);
    } else {
        assert(front[i] == rules[i]);
        assert forall|j: int|
            i < j < front.len() && rule_applies(#[trigger] front[j], element) implies undeclared(
            front[j].declarations,
            property,
        ) by {
            assert(front[j] == rules[j]);
        }
        lemma_last_declaration_wins(front, element, property, i, k);
        if rule_applies(rules.last(), element) {
            assert(rules[rules.len() - 1] == rules.last());
            lemma_other_declarations_keep(before, rules.last().declarations, property);
        }
    }
}

/// Of two rules that both apply to an element and both declare a
/// property, the second gives the property its value, whatever the
/// selectors of the two rules are.
pub proof fn lemma_second_rule_wins(
    first: RuleView,
    second: RuleView,
    element: ElementView,
    property: PropertyView,
    k: int,
)
    requires
        rule_applies(first, element),
        rule_applies(second, element),
        !undeclared(first.declarations, property),
        declared_last_at(second.declarations, property, k),
    ensures
        resolved(seq![first, second], element).contains_key(property),
        resolved(seq![first, second], element)[property] == second.declarations[k].value,
{
    let rules = seq![first, second];
    assert(rules[1] == second);
    lemma_last_declaration_wins(rules, element, property, 1, k);
}

/// A class or an id on top of a selector matches an element exactly if
/// both match it: the selector on the left, and the class or id taken
/// alone. The selector on the left is a condition on the same element,
/// not on one above it.
pub proof fn lemma_compound_is_conjunction(left: SelectorView, name: Seq<char>, element: ElementView)
    ensures
        selector_matches(SelectorView::Class(Some(Box::new(left)), name), element) == (
        selector_matches(left, element) && selector_matches(
            SelectorView::Class(None, name),
            element,
        )),
        selector_matches(SelectorView::Id(Some(Box::new(left)), name), element) == (
        selector_matches(left, element) && selector_matches(SelectorView::Id(None, name), element)),
{
}

/// A stylesheet gives an element no property that none of its applying
/// rules declares.
pub proof fn lemma_resolved_is_declared(
    rules: Seq<RuleView>,
    element: ElementView,
    property: PropertyView,
)
    requires
        resolved(rules, element).contains_key(property),
    ensures
        exists|i: int|
            0 <= i < rules.len() && rule_applies(#[trigger] rules[i], element) && !undeclared(
                rules[i].declarations,
                property,
            ),
    decreases rules.len(),
{
    if rules.len() > 0 {
        let front = rules.drop_last();
        let before = resolved(front, element);
        let last = rules.len() - 1;
        if rule_applies(rules.last(), element) && !undeclared(rules.last().declarations, property) {
            assert(rule_applies(rules[last], element) && !undeclared(
                rules[last].declarations,
                property,
            ));
        } else {
            if rule_applies(rules.last(), element) {
                lemma_other_declarations_keep(before, rules.last().declarations, property);
            }
            lemma_resolved_is_declared(front, element, property);
            let i = choose|i: int|
                0 <= i < front.len() && rule_applies(#[trigger] front[i], element) && !undeclared(
                    front[i].declarations,
                    property,
                );
            assert(rules[i] == front[i]);
        }
    }
}

impl Selector {
    /// Whether the selector matches `element`.
    pub fn matches(&self, element: &Element) -> (b: bool)
        ensures
            b == selector_matches(self@, element@),
        decreases self,
    {
        match self {
            Selector::Tag(tag_name) => tag_name.same_as(&element.tag_name),
            Selector::Class(Some(selector), class_name) => {
                selector.matches(element) && match element.get_classes() {
                    Some(text) => same_text(class_name.as_str(), text),
                    None => false,
                }
            },
            Selector::Class(None, class_name) => {
                match element.get_classes() {
                    Some(text) => same_text(class_name.as_str(), text),
                    None => false,
                }
            },
            Selector::Id(Some(selector), id) => {
                selector.matches(element) && match element.get_id() {
                    Some(text) => same_text(id.as_str(), text),
                    None => false,
                }
            },
            Selector::Id(None, id) => {
                match element.get_id() {
                    Some(text) => same_text(id.as_str(), text),
                    None => false,
                }
            },
            _ => false,
        }
    }
}

/// The styles of one element: its properties, each with its value. The
/// properties and values are those of the stylesheet that gave them.
#[derive(Debug)]
pub struct StyleMap<'a> {
    entries: Vec<(&'a DeclarationProperty, &'a DeclarationValue)>,
}

/// What each pair of a list of styles is.
pub open spec fn style_views(entries: Seq<(&DeclarationProperty, &DeclarationValue)>) -> Seq<
    (PropertyView, ValueView),
> {
    entries.map_values(|e: (&DeclarationProperty, &DeclarationValue)| (e.0@, e.1@))
}

impl<'a> View for StyleMap<'a> {
    type V = Map<PropertyView, ValueView>;

    closed spec fn view(&self) -> Map<PropertyView, ValueView> {
        pairs_map(style_views(self.entries@))
    }
}

impl<'a> StyleMap<'a> {
    #[verifier::type_invariant]
    spec fn no_property_twice(self) -> bool {
        distinct_keys(style_views(self.entries@))
    }

    /// The properties with their values, in the order in which the
    /// properties were first given a value.
    pub closed spec fn pairs(&self) -> Seq<(PropertyView, ValueView)> {
        style_views(self.entries@)
    }

    /// No styles.
    pub fn new() -> (styles: Self)
        ensures
            styles@ == Map::<PropertyView, ValueView>::empty(),
            styles.pairs() == Seq::<(PropertyView, ValueView)>::empty(),
    {
        let styles = StyleMap { entries: Vec::new() };
        proof {
            assert(style_views(styles.entries@) =~= Seq::empty());
        }
        styles
    }

    /// Whether there are no styles.
    pub fn is_empty(&self) -> (b: bool)
        ensures
            b == (self@ == Map::<PropertyView, ValueView>::empty()),
            b == (self.pairs().len() == 0),
    {
        proof {
            use_type_invariant(self);
            let views = style_views(self.entries@);
            if views.len() > 0 {
                lemma_pairs_map_value(views, 0);
            }
            assert(self@ == Map::<PropertyView, ValueView>::empty() ==> views.len() == 0);
            if views.len() == 0 {
                assert(self@ =~= Map::<PropertyView, ValueView>::empty());
            }
        }
        self.entries.len() == 0
    }

    /// How many properties have a value.
    pub fn len(&self) -> (n: usize)
        ensures
            n == self.pairs().len(),
            self@ == pairs_map(self.pairs()),
            distinct_keys(self.pairs()),
    {
        proof {
            use_type_invariant(self);
        }
        self.entries.len()
    }

    /// The property and the value at `i`, in the order in which the
    /// properties were first given a value.
    pub fn entry(&self, i: usize) -> (pair: (&'a DeclarationProperty, &'a DeclarationValue))
        requires
            i < self.pairs().len(),
        ensures
            (pair.0@, pair.1@) == self.pairs()[i as int],
    {
        self.entries[i]
    }

    /// Gives `value` to `property`, in place of the value that the
    /// property had, if it had one.
    pub fn insert(&mut self, property: &'a DeclarationProperty, value: &'a DeclarationValue)
        ensures
            final(self)@ == old(self)@.insert(property@, value@),
    {
        proof {
            use_type_invariant(&*self);
        }
        let ghost before = style_views(self.entries@);
        let mut i: usize = 0;
        while i < self.entries.len()
            invariant
                self.entries == old(self).entries,
                before == style_views(self.entries@),
                distinct_keys(before),
                i <= self.entries.len(),
                forall|j: int| 0 <= j < i ==> (#[trigger] before[j]).0 != property@,
            decreases self.entries.len() - i,
        {
            if self.entries[i].0.same_as(property) {
                let mut entries: Vec<(&'a DeclarationProperty, &'a DeclarationValue)> = Vec::new();
                std::mem::swap(&mut entries, &mut self.entries);
                let kept = entries[i].0;
                entries.set(i, (kept, value));
                proof {
                    assert(style_views(entries@) =~= before.update(
                        i as int,
                        (before[i as int].0, value@),
                    ));
                    lemma_pairs_map_update(before, i as int, value@);
                }
                self.entries = entries;
                return ;
            }
            i += 1;
        }
        let mut entries: Vec<(&'a DeclarationProperty, &'a DeclarationValue)> = Vec::new();
        std::mem::swap(&mut entries, &mut self.entries);
        entries.push((property, value));
        proof {
            let after = before.push((property@, value@));
            assert(style_views(entries@) =~= after);
            assert(after.drop_last() =~= before);
            assert forall|a: int, b: int| 0 <= a < b < after.len() implies after[a].0
                != after[b].0 by {
                if b == before.len() {
                    assert(before[a].0 != property@);
                } else {
                    assert(before[a].0 != before[b].0);
                }
            }
        }
        self.entries = entries;
    }

    /// The value of `property`, if it has one.
    pub fn get(&self, property: &DeclarationProperty) -> (value: Option<&'a DeclarationValue>)
        ensures
            match value {
                Some(v) => self@.contains_key(property@) && self@[property@] == v@,
                None => !self@.contains_key(property@),
            },
    {
        proof {
            use_type_invariant(self);
        }
        let ghost views = style_views(self.entries@);
        let mut i: usize = 0;
        while i < self.entries.len()
            invariant
                views == style_views(self.entries@),
                distinct_keys(views),
                i <= self.entries.len(),
                forall|j: int| 0 <= j < i ==> (#[trigger] views[j]).0 != property@,
            decreases self.entries.len() - i,
        {
            if self.entries[i].0.same_as(property) {
                proof {
                    lemma_pairs_map_value(views, i as int);
                }
                return Some(self.entries[i].1);
            }
            i += 1;
        }
        proof {
            lemma_pairs_map_keys(views, property@);
        }
        None
    }
}

impl Rule {
    /// Whether the rule applies to `element`: whether any of its selectors
    /// matches it. The selectors are tried in their order, up to the first
    /// one that matches.
    pub fn applies_to(&self, element: &Element) -> (b: bool)
        ensures
            b == rule_applies(self@, element@),
    {
        let mut j: usize = 0;
        while j < self.selectors.len()
            invariant
                j <= self.selectors.len(),
                forall|i: int| 0 <= i < j ==> !selector_matches(#[trigger] self@.selectors[i], element@),
            decreases self.selectors.len() - j,
        {
            if self.selectors[j].matches(element) {
                proof {
                    assert(self@.selectors[j as int] == self.selectors@[j as int]@);
                }
                return true;
            }
            proof {
                assert(self@.selectors[j as int] == self.selectors@[j as int]@);
            }
            j += 1;
        }
        false
    }
}

impl StyleSheet {
    /// The styles that the stylesheet gives to `element`.
    pub fn get_styles<'a>(&'a self, element: &Element) -> (styles: StyleMap<'a>)
        ensures
            styles@ == resolved(self@, element@),
    {
        let mut styles = StyleMap::new();
        let mut i: usize = 0;
        while i < self.rules.len()
            invariant
                i <= self.rules.len(),
                styles@ == resolved(self@.take(i as int), element@),
            decreases self.rules.len() - i,
        {
            let rule = &self.rules[i];
            let ghost before = styles@;
            proof {
                assert(self@.take(i + 1).drop_last() =~= self@.take(i as int));
                assert(self@.take(i + 1).last() == rule@);
            }
            if rule.applies_to(element) {
                let mut k: usize = 0;
                while k < rule.declarations.len()
                    invariant
                        k <= rule.declarations.len(),
                        styles@ == declare_all(before, rule@.declarations.take(k as int)),
                    decreases rule.declarations.len() - k,
                {
                    let declaration = &rule.declarations[k];
                    styles.insert(&declaration.property, &declaration.value);
                    proof {
                        assert(rule@.declarations.take(k + 1).drop_last()
                            =~= rule@.declarations.take(k as int));
                        assert(rule@.declarations.take(k + 1).last() == declaration@);
                    }
                    k += 1;
                }
                proof {
                    assert(rule@.declarations.take(k as int) =~= rule@.declarations);
                }
            }
            i += 1;
        }
        proof {
            assert(self@.take(i as int) =~= self@);
        }
        styles
    }
}

} // verus!
