//! The recipe model: ingredients, the two recipe kinds, the combination
//! mode, and the per-kind validity rules.

use vstd::prelude::*;
use vstd::string::*;
use crate::ident::{spec_validate, validate_resource_location};
use crate::text::{ci_eq, str_eq, str_eq_ci};

verus! {

/// Spec-level ingredient: the identifier sequence tagged as a concrete
/// item or as a (reserved, always invalid) tag.
pub enum IngredientV {
    Item(Seq<char>),
    Tag(Seq<char>),
}

/// A match criterion for a recipe input: a concrete item identifier, or a
/// tag identifier reserved for future use and rejected by validation.
#[derive(Debug, Clone, PartialEq, Eq)]
pub enum Ingredient {
    Item(String),
    Tag(String),
}

impl View for Ingredient {
    type V = IngredientV;

    open spec fn view(&self) -> IngredientV {
        match self {
            Ingredient::Item(s) => IngredientV::Item(s@),
            Ingredient::Tag(s) => IngredientV::Tag(s@),
        }
    }
}

/// Spec-level result item.
pub enum ResultItemV {
    Item(Seq<char>),
}

/// The item a recipe produces; only concrete items exist.
#[derive(Debug, Clone, PartialEq, Eq)]
pub enum ResultItem {
    Item(String),
}

impl View for ResultItem {
    type V = ResultItemV;

    open spec fn view(&self) -> ResultItemV {
        match self {
            ResultItem::Item(s) => ResultItemV::Item(s@),
        }
    }
}

/// How a combination recipe joins its two inputs.
#[derive(Debug, Clone, Copy, PartialEq, Eq, Structural)]
pub enum CombinationMode {
    And,
    Or,
}

impl CombinationMode {
    /// The lowercase text this mode is serialized as.
    pub open spec fn spec_str(&self) -> Seq<char> {
        match self {
            CombinationMode::And => "and"@,
            CombinationMode::Or => "or"@,
        }
    }

    /// The mode a text field denotes: `and`/`&&` or `or`/`||`, compared
    /// without regard to ASCII case.
    pub open spec fn spec_parse(s: Seq<char>) -> Option<CombinationMode> {
        if ci_eq(s, "and"@) || ci_eq(s, "&&"@) {
            Some(CombinationMode::And)
        } else if ci_eq(s, "or"@) || ci_eq(s, "||"@) {
            Some(CombinationMode::Or)
        } else {
            None
        }
    }

    /// Serializes the mode as its lowercase name.
    pub fn as_str(&self) -> (r: &'static str)
        ensures
            r@ == self.spec_str(),
    {
        match self {
            CombinationMode::And => "and",
            CombinationMode::Or => "or",
        }
    }

    /// Parses a mode field.
    pub fn parse(s: &str) -> (r: Option<CombinationMode>)
        ensures
            r == Self::spec_parse(s@),
    {
        if str_eq_ci(s, "and") || str_eq_ci(s, "&&") {
            Some(CombinationMode::And)
        } else if str_eq_ci(s, "or") || str_eq_ci(s, "||") {
            Some(CombinationMode::Or)
        } else {
            None
        }
    }
}

/// The grist-cost mapping: resource name to integer amount, with unique
/// keys, kept in insertion order.
#[derive(Debug, Clone, PartialEq, Eq)]
pub struct GristMap {
    entries: Vec<(String, i32)>,
}

impl View for GristMap {
    type V = Seq<(Seq<char>, i32)>;

    closed spec fn view(&self) -> Seq<(Seq<char>, i32)> {
        Seq::new(self.entries@.len(), |i: int| (self.entries@[i].0@, self.entries@[i].1))
    }
}

/// Unique keys: no two entries share a key.
pub open spec fn unique_keys<T>(s: Seq<(Seq<char>, T)>) -> bool {
    forall|i: int, j: int| 0 <= i < j < s.len() ==> (#[trigger] s[i]).0 != (#[trigger] s[j]).0
}

impl GristMap {
    /// The mapping keeps its keys unique.
    pub open spec fn wf(&self) -> bool {
        unique_keys(self@)
    }

    /// Creates an empty mapping.
    pub fn new() -> (r: GristMap)
        ensures
            r@ == Seq::<(Seq<char>, i32)>::empty(),
            r.wf(),
    {
        GristMap { entries: Vec::new() }
    }

    /// How many entries the mapping holds.
    pub fn len(&self) -> (r: usize)
        ensures
            r == self@.len(),
    {
        self.entries.len()
    }

    /// The resource name of the entry at `i`.
    pub fn key_at(&self, i: usize) -> (r: &String)
        requires
            i < self@.len(),
        ensures
            r@ == self@[i as int].0,
    {
        &self.entries[i].0
    }

    /// The amount of the entry at `i`.
    pub fn amount_at(&self, i: usize) -> (r: i32)
        requires
            i < self@.len(),
        ensures
            r == self@[i as int].1,
    {
        self.entries[i].1
    }

    /// The amount stored under `key`, if any.
    pub fn get(&self, key: &str) -> (r: Option<i32>)
        ensures
            match r {
                Some(v) => exists|i: int|
                    0 <= i < self@.len() && (#[trigger] self@[i]) == (key@, v),
                None => forall|i: int|
                    0 <= i < self@.len() ==> (#[trigger] self@[i]).0 != key@,
            },
    {
        let n = self.entries.len();
        let mut i: usize = 0;
        while i < n
            invariant
                n == self@.len(),
                i <= n,
                forall|j: int| 0 <= j < i ==> (#[trigger] self@[j]).0 != key@,
            decreases n - i,
        {
            if str_eq(self.entries[i].0.as_str(), key) {
                let v = self.entries[i].1;
                proof {
                    assert(self@[i as int] == (key@, v));
                }
                return Some(v);
            }
            i = i + 1;
        }
        None
    }

    /// Puts a new entry in front of the existing ones, unconditionally.
    pub(crate) fn prepend(self, key: String, amount: i32) -> (r: GristMap)
        ensures
            r@ == seq![(key@, amount)] + self@,
    {
        let mut v = self.entries;
        v.insert(0, (key, amount));
        let r = GristMap { entries: v };
        proof {
            assert(r@ =~= seq![(key@, amount)] + self@);
        }
        r
    }

    /// Inserts `key -> amount`: overwrites the amount in place when the
    /// key is already present, otherwise appends a new entry.
    pub fn insert(&mut self, key: String, amount: i32)
        requires
            old(self).wf(),
        ensures
            final(self).wf(),
            old(self)@.len() <= final(self)@.len() <= old(self)@.len() + 1,
            (forall|i: int| 0 <= i < old(self)@.len() ==> (#[trigger] old(self)@[i]).0 != key@)
                ==> final(self)@ == old(self)@.push((key@, amount)),
            (exists|i: int| 0 <= i < old(self)@.len() && (#[trigger] old(self)@[i]).0 == key@)
                ==> (exists|i: int|
                    0 <= i < old(self)@.len() && (#[trigger] old(self)@[i]).0 == key@
                        && final(self)@ == old(self)@.update(i, (key@, amount))),
    {
        let n = self.entries.len();
        let mut i: usize = 0;
        while i < n
            invariant
                *self == *old(self),
                old(self).wf(),
                n == self@.len(),
                i <= n,
                forall|j: int| 0 <= j < i ==> (#[trigger] self@[j]).0 != key@,
            decreases n - i,
        {
            if str_eq(self.entries[i].0.as_str(), key.as_str()) {
                let ghost pre = self@;
                self.entries.set(i, (key, amount));
                proof {
                    let upd = pre.update(i as int, (key@, amount));
                    assert(self@ =~= upd);
                    assert(forall|j: int|
                        0 <= j < upd.len() ==> (#[trigger] upd[j]).0 == pre[j].0);
                    assert(unique_keys(self@));
                    assert(0 <= i < pre.len() && pre[i as int].0 == key@
                        && self@ == pre.update(i as int, (key@, amount)));
                }
                return;
            }
            i = i + 1;
        }
        let ghost pre = self@;
        self.entries.push((key, amount));
        proof {
            assert(self@ =~= pre.push((key@, amount)));
            assert forall|a: int, b: int|
                0 <= a < b < self@.len() implies (#[trigger] self@[a]).0
                != (#[trigger] self@[b]).0 by {
                if b == pre.len() {
                    assert(pre[a].0 != key@);
                }
            }
        }
    }
}

/// Spec-level grist-cost recipe.
pub struct GristCostRecipeV {
    pub priority: Option<i32>,
    pub ingredient: IngredientV,
    pub grist_cost: Seq<(Seq<char>, i32)>,
}

/// A grist-cost recipe: what an item costs to alchemize.
#[derive(Debug, Clone, PartialEq, Eq)]
pub struct GristCostRecipe {
    pub priority: Option<i32>,
    pub ingredient: Ingredient,
    pub grist_cost: GristMap,
}

impl View for GristCostRecipe {
    type V = GristCostRecipeV;

    open spec fn view(&self) -> GristCostRecipeV {
        GristCostRecipeV {
            priority: self.priority,
            ingredient: self.ingredient@,
            grist_cost: self.grist_cost@,
        }
    }
}

impl GristCostRecipeV {
    /// Valid when the ingredient is a concrete item with a valid
    /// identifier and every grist resource name is a valid identifier.
    pub open spec fn valid(&self) -> bool {
        &&& self.ingredient matches IngredientV::Item(id) && spec_validate(id)
        &&& forall|i: int|
            0 <= i < self.grist_cost.len() ==> spec_validate((#[trigger] self.grist_cost[i]).0)
    }
}

/// Spec-level combination recipe.
pub struct CombinationRecipeV {
    pub input1: IngredientV,
    pub input2: IngredientV,
    pub mode: CombinationMode,
    pub output: ResultItemV,
}

/// A combination recipe: two inputs joined by a mode produce an output.
#[derive(Debug, Clone, PartialEq, Eq)]
pub struct CombinationRecipe {
    pub input1: Ingredient,
    pub input2: Ingredient,
    pub mode: CombinationMode,
    pub output: ResultItem,
}

impl View for CombinationRecipe {
    type V = CombinationRecipeV;

    open spec fn view(&self) -> CombinationRecipeV {
        CombinationRecipeV {
            input1: self.input1@,
            input2: self.input2@,
            mode: self.mode,
            output: self.output@,
        }
    }
}

impl CombinationRecipeV {
    /// Valid when both inputs are concrete items, the output is a concrete
    /// item, and all three identifiers are valid.
    pub open spec fn valid(&self) -> bool {
        &&& self.input1 matches IngredientV::Item(id1) && spec_validate(id1)
        &&& self.input2 matches IngredientV::Item(id2) && spec_validate(id2)
        &&& self.output matches ResultItemV::Item(out) && spec_validate(out)
    }
}

/// Spec-level recipe.
pub enum RecipeV {
    GristCost(GristCostRecipeV),
    Combination(CombinationRecipeV),
}

/// The closed union of recipe kinds.
#[derive(Debug, Clone, PartialEq, Eq)]
pub enum Recipe {
    GristCost(GristCostRecipe),
    Combination(CombinationRecipe),
}

impl View for Recipe {
    type V = RecipeV;

    open spec fn view(&self) -> RecipeV {
        match self {
            Recipe::GristCost(r) => RecipeV::GristCost(r@),
            Recipe::Combination(r) => RecipeV::Combination(r@),
        }
    }
}

impl RecipeV {
    /// Validity of the active kind.
    pub open spec fn valid(&self) -> bool {
        match self {
            RecipeV::GristCost(r) => r.valid(),
            RecipeV::Combination(r) => r.valid(),
        }
    }
}

impl core::convert::From<GristCostRecipe> for Recipe {
    /// Wraps a grist-cost recipe in the union.
    fn from(value: GristCostRecipe) -> (r: Recipe) {
        Recipe::GristCost(value)
    }
}

impl vstd::std_specs::convert::FromSpecImpl<GristCostRecipe> for Recipe {
    open spec fn obeys_from_spec() -> bool {
        true
    }

    open spec fn from_spec(v: GristCostRecipe) -> Recipe {
        Recipe::GristCost(v)
    }
}

impl core::convert::From<CombinationRecipe> for Recipe {
    /// Wraps a combination recipe in the union.
    fn from(value: CombinationRecipe) -> (r: Recipe) {
        Recipe::Combination(value)
    }
}

impl vstd::std_specs::convert::FromSpecImpl<CombinationRecipe> for Recipe {
    open spec fn obeys_from_spec() -> bool {
        true
    }

    open spec fn from_spec(v: CombinationRecipe) -> Recipe {
        Recipe::Combination(v)
    }
}

fn ingredient_is_valid_item(ing: &Ingredient) -> (r: bool)
    ensures
        r == (ing@ matches IngredientV::Item(id) && spec_validate(id)),
{
    match ing {
        Ingredient::Item(name) => validate_resource_location(name.as_str()),
        Ingredient::Tag(_) => false,
    }
}

impl GristCostRecipe {
    /// Whether the recipe passes validation.
    pub fn is_valid(&self) -> (r: bool)
        ensures
            r == self@.valid(),
    {
        if !ingredient_is_valid_item(&self.ingredient) {
            return false;
        }
        let n = self.grist_cost.len();
        let mut i: usize = 0;
        while i < n
            invariant
                n == self@.grist_cost.len(),
                i <= n,
                forall|j: int| 0 <= j < i ==> spec_validate((#[trigger] self@.grist_cost[j]).0),
            decreases n - i,
        {
            if !validate_resource_location(self.grist_cost.key_at(i).as_str()) {
                return false;
            }
            i = i + 1;
        }
        true
    }
}

impl CombinationRecipe {
    /// Whether the recipe passes validation.
    pub fn is_valid(&self) -> (r: bool)
        ensures
            r == self@.valid(),
    {
        if !ingredient_is_valid_item(&self.input1) {
            return false;
        }
        if !ingredient_is_valid_item(&self.input2) {
            return false;
        }
        match &self.output {
            ResultItem::Item(out) => validate_resource_location(out.as_str()),
        }
    }
}

impl Recipe {
    /// Whether the active recipe kind passes validation.
    pub fn is_valid(&self) -> (r: bool)
        ensures
            r == self@.valid(),
    {
        match self {
            Recipe::GristCost(r) => r.is_valid(),
            Recipe::Combination(r) => r.is_valid(),
        }
    }
}

} // verus!
