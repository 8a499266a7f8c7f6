//! The interactive editor's state and its export decision: rows of cost
//! entries, each with cached validity flags, and the rule that turns the
//! rows into a data pack plus a list of reported problems.

use vstd::prelude::*;
use vstd::string::*;
use crate::ident::{grist_resource, spec_qualify, spec_validate, valid_split,
    validate_resource_location};
use crate::lines::{char_pos, find_char_from, seq_insert, spec_trim, trim_str};
use crate::numbers::{dec_int, push_dec_i32};
use crate::pack::{lemma_rec_map_dom, Datapack, MCMetaV};
use crate::recipe::{
    GristCostRecipe, GristCostRecipeV, GristMap, Ingredient, IngredientV, Recipe, RecipeV,
};

verus! {

/// Spec-level grist field of the editor.
pub struct GristFieldV {
    pub name: Seq<char>,
    pub valid_name: bool,
    pub amount_string: Seq<char>,
    pub amount: Option<i32>,
}

impl GristFieldV {
    /// The cached flag agrees with the validation rule.
    pub open spec fn wf(&self) -> bool {
        self.valid_name == spec_validate(spec_qualify(self.name))
    }
}

/// One grist row of a cost entry: the resource name as typed, the amount
/// text as typed, and the cached results of checking them.
#[derive(Debug, Clone, PartialEq, Eq)]
pub struct GristField {
    pub name: String,
    pub valid_name: bool,
    pub amount_string: String,
    pub amount: Option<i32>,
}

impl View for GristField {
    type V = GristFieldV;

    open spec fn view(&self) -> GristFieldV {
        GristFieldV {
            name: self.name@,
            valid_name: self.valid_name,
            amount_string: self.amount_string@,
            amount: self.amount,
        }
    }
}

impl GristField {
    /// A field loaded from an existing amount: the name is checked after
    /// qualification, and the amount text is the amount's decimal text.
    pub fn new(name: &str, amount: i32) -> (r: GristField)
        ensures
            r@ == (GristFieldV {
                name: name@,
                valid_name: spec_validate(spec_qualify(name@)),
                amount_string: dec_int(amount as int),
                amount: Some(amount),
            }),
            r@.wf(),
    {
        let qualified = grist_resource(name);
        let mut text = String::new();
        push_dec_i32(&mut text, amount);
        proof {
            assert(text@ =~= dec_int(amount as int));
        }
        GristField {
            name: String::from_str(name),
            valid_name: validate_resource_location(qualified.as_str()),
            amount_string: text,
            amount: Some(amount),
        }
    }
}

/// Spec-level cost entry of the editor.
pub struct CostEntryV {
    pub item_id: Seq<char>,
    pub valid_item: bool,
    pub grist: Seq<GristFieldV>,
}

impl CostEntryV {
    /// The cached flags agree with the validation rule.
    pub open spec fn wf(&self) -> bool {
        &&& self.valid_item == spec_validate(self.item_id)
        &&& forall|j: int| 0 <= j < self.grist.len() ==> (#[trigger] self.grist[j]).wf()
    }
}

/// One row of the editor: an item identifier and its grist fields, with
/// the cached result of checking the identifier.
#[derive(Debug, Clone, PartialEq, Eq)]
pub struct CostEntry {
    pub item_id: String,
    pub valid_item: bool,
    pub grist: Vec<GristField>,
}

impl View for CostEntry {
    type V = CostEntryV;

    open spec fn view(&self) -> CostEntryV {
        CostEntryV {
            item_id: self.item_id@,
            valid_item: self.valid_item,
            grist: Seq::new(self.grist@.len(), |j: int| self.grist@[j]@),
        }
    }
}

impl CostEntry {
    /// An entry loaded from an existing recipe: the identifier is checked
    /// as it stands.
    pub fn new(item_id: &str, grist: Vec<GristField>) -> (r: CostEntry)
        ensures
            r@.item_id == item_id@,
            r@.valid_item == spec_validate(item_id@),
            r@.grist == Seq::new(grist@.len(), |j: int| grist@[j]@),
            (forall|j: int| 0 <= j < grist@.len() ==> (#[trigger] grist@[j])@.wf()) ==> r@.wf(),
    {
        CostEntry {
            item_id: String::from_str(item_id),
            valid_item: validate_resource_location(item_id),
            grist,
        }
    }
}

/// The views of a list of cost entries.
pub open spec fn entries_v(cs: Seq<CostEntry>) -> Seq<CostEntryV> {
    Seq::new(cs.len(), |i: int| cs[i]@)
}

/// A row the export pass drops silently: an empty identifier and only
/// untouched grist fields.
pub open spec fn entry_blank(c: CostEntryV) -> bool {
    &&& spec_trim(c.item_id).len() == 0
    &&& forall|j: int|
        0 <= j < c.grist.len() ==> ((#[trigger] c.grist[j]).amount_string.len() == 0
            && c.grist[j].name.len() == 0)
}

/// The list without its blank rows, in order.
pub open spec fn spec_nonblank(cs: Seq<CostEntryV>) -> Seq<CostEntryV>
    decreases cs.len(),
{
    if cs.len() == 0 {
        Seq::<CostEntryV>::empty()
    } else if entry_blank(cs.last()) {
        spec_nonblank(cs.drop_last())
    } else {
        spec_nonblank(cs.drop_last()).push(cs.last())
    }
}

/// Drops the blank rows before an export pass.
#[verifier::loop_isolation(false)]
pub fn retain_nonblank(costs: Vec<CostEntry>) -> (r: Vec<CostEntry>)
    ensures
        entries_v(r@) == spec_nonblank(entries_v(costs@)),
{
    let ghost all = entries_v(costs@);
    let mut rest = costs;
    let mut out: Vec<CostEntry> = Vec::new();
    let ghost k: int = 0;
    while rest.len() > 0
        invariant
            0 <= k <= all.len(),
            entries_v(rest@) =~= all.skip(k),
            entries_v(out@) =~= spec_nonblank(all.take(k)),
        decreases rest@.len(),
    {
        let ghost cur = all.take(k + 1);
        proof {
            assert(cur.drop_last() =~= all.take(k));
            assert(cur.last() == all[k]);
            assert(entries_v(rest@)[0] == rest@[0]@);
            assert(rest@[0]@ == all[k]);
        }
        let ghost pre_rest = rest@;
        let c = rest.remove(0);
        proof {
            assert(c@ == all[k]);
            assert(rest@ =~= pre_rest.skip(1));
            assert(entries_v(rest@) =~= all.skip(k + 1)) by {
                assert forall|x: int|
                    0 <= x < rest@.len() implies entries_v(rest@)[x] == all.skip(k + 1)[x] by {
                    assert(rest@[x] == pre_rest[x + 1]);
                    assert(pre_rest[x + 1]@ == entries_v(pre_rest)[x + 1]);
                    assert(entries_v(pre_rest)[x + 1] == all.skip(k)[x + 1]);
                }
            }
        }
        let mut blank = trim_str(c.item_id.as_str()).as_str().unicode_len() == 0;
        let gn = c.grist.len();
        let mut j: usize = 0;
        while j < gn && blank
            invariant
                j <= gn,
                gn == c.grist@.len(),
                blank ==> spec_trim(c@.item_id).len() == 0,
                blank ==> forall|x: int|
                    0 <= x < j ==> ((#[trigger] c@.grist[x]).amount_string.len() == 0
                        && c@.grist[x].name.len() == 0),
                !blank ==> !entry_blank(c@),
            decreases gn - j,
        {
            let gf = &c.grist[j];
            if gf.amount_string.as_str().unicode_len() != 0 || gf.name.as_str().unicode_len()
                != 0 {
                blank = false;
                proof {
                    assert((c@.grist[j as int]).amount_string.len() != 0 || c@.grist[
                        j as int
                    ].name.len() != 0);
                    assert(!entry_blank(c@));
                }
            }
            j = j + 1;
        }
        proof {
            assert(blank == entry_blank(c@));
        }
        if !blank {
            out.push(c);
        }
        proof {
            assert(entries_v(out@) =~= spec_nonblank(cur));
            k = k + 1;
        }
    }
    proof {
        assert(all.take(k) =~= all);
    }
    out
}

/// One reported export problem: its message, the row it concerns, and
/// whether it kept a recipe out of the pack.
#[derive(Debug, Clone, PartialEq, Eq)]
pub struct ExportError {
    pub text: String,
    pub position: usize,
    pub invalid: bool,
}

/// Spec-level export problem.
pub struct ExportErrorV {
    pub text: Seq<char>,
    pub position: int,
    pub invalid: bool,
}

impl View for ExportError {
    type V = ExportErrorV;

    open spec fn view(&self) -> ExportErrorV {
        ExportErrorV {
            text: self.text@,
            position: self.position as int,
            invalid: self.invalid,
        }
    }
}

/// Every grist row has an amount and a valid name.
pub open spec fn grist_fields_ok(gs: Seq<GristFieldV>) -> bool {
    forall|j: int|
        0 <= j < gs.len() ==> ((#[trigger] gs[j]).amount is Some && gs[j].valid_name)
}

/// The grist mapping an entry's rows denote, qualified and inserted in
/// order.
pub open spec fn fields_costs(gs: Seq<GristFieldV>) -> Seq<(Seq<char>, i32)>
    decreases gs.len(),
{
    if gs.len() == 0 {
        Seq::<(Seq<char>, i32)>::empty()
    } else {
        seq_insert(
            fields_costs(gs.drop_last()),
            spec_qualify(gs.last().name),
            gs.last().amount->0,
        )
    }
}

/// Where an entry's recipe is stored: the grist-cost subtree, then the
/// identifier's namespace and path as directories.
pub open spec fn entry_key(item: Seq<char>) -> Seq<char> {
    let c = char_pos(item, 0, ':');
    "data/minestuck/recipes/grist_costs/"@ + item.take(c) + "/"@ + item.subrange(
        c + 1,
        item.len() as int,
    )
}

/// The recipe an entry denotes.
pub open spec fn entry_recipe(c: CostEntryV) -> RecipeV {
    RecipeV::GristCost(
        GristCostRecipeV {
            priority: Some(101i32),
            ingredient: IngredientV::Item(c.item_id),
            grist_cost: fields_costs(c.grist),
        },
    )
}

/// What exporting a list of rows produces: the keyed recipes, and the
/// reported problems in row order.
pub open spec fn spec_export(cs: Seq<CostEntryV>) -> (Map<Seq<char>, RecipeV>, Seq<ExportErrorV>)
    decreases cs.len(),
{
    if cs.len() == 0 {
        (Map::<Seq<char>, RecipeV>::empty(), Seq::<ExportErrorV>::empty())
    } else {
        let (m, es) = spec_export(cs.drop_last());
        let c = cs.last();
        let i = cs.len() - 1;
        if !c.valid_item {
            (
                m,
                es.push(
                    ExportErrorV { text: "Invalid item "@ + c.item_id, position: i, invalid: true },
                ),
            )
        } else if !grist_fields_ok(c.grist) {
            (
                m,
                es.push(
                    ExportErrorV {
                        text: "Invalid grist for "@ + c.item_id,
                        position: i,
                        invalid: true,
                    },
                ),
            )
        } else {
            let k = entry_key(c.item_id);
            let dup = m.dom().contains(k);
            let es2 = if dup {
                es.push(
                    ExportErrorV {
                        text: "Duplicate item "@ + c.item_id,
                        position: i,
                        invalid: true,
                    },
                )
            } else {
                es
            };
            let es3 = if c.grist.len() == 0 {
                es2.push(
                    ExportErrorV { text: "No grist for "@ + c.item_id, position: i, invalid: false },
                )
            } else {
                es2
            };
            (m.insert(k, entry_recipe(c)), es3)
        }
    }
}

/// Exports the rows: every row with a valid item and fully valid grist
/// becomes a recipe under its key; every other row is reported; duplicate
/// items and empty grist lists are reported as well.
#[verifier::loop_isolation(false)]
#[verifier::rlimit(60)]
pub fn export_datapack(costs: &Vec<CostEntry>) -> (r: (Datapack, Vec<ExportError>))
    requires
        forall|i: int| 0 <= i < costs@.len() ==> (#[trigger] costs@[i]@).wf(),
    ensures
        ({
            let (m, es) = spec_export(entries_v(costs@));
            &&& r.0.recipes.wf()
            &&& r.0.recipes.as_map() == m
            &&& r.0.mcmeta@ == (MCMetaV { pack: crate::pack::default_pack() })
            &&& r.1@.len() == es.len()
            &&& forall|i: int| 0 <= i < es.len() ==> (#[trigger] r.1@[i])@ == es[i]
        }),
{
    let mut pack = Datapack::new();
    let mut errors: Vec<ExportError> = Vec::new();
    let n = costs.len();
    let mut i: usize = 0;
    while i < n
        invariant
            i <= n,
            pack.recipes.wf(),
            pack.mcmeta@ == (MCMetaV { pack: crate::pack::default_pack() }),
            ({
                let (m, es) = spec_export(entries_v(costs@).take(i as int));
                &&& pack.recipes.as_map() == m
                &&& errors@.len() == es.len()
                &&& forall|x: int| 0 <= x < es.len() ==> (#[trigger] errors@[x])@ == es[x]
            }),
        decreases n - i,
    {
        let ghost pre = entries_v(costs@).take(i as int);
        let ghost cur = entries_v(costs@).take(i as int + 1);
        proof {
            assert(cur.drop_last() =~= pre);
            assert(cur.last() == costs@[i as int]@);
        }
        let c = &costs[i];
        if !c.valid_item {
            let mut text = String::from_str("Invalid item ");
            text.append(c.item_id.as_str());
            errors.push(ExportError { text, position: i, invalid: true });
        } else {
            let gn = c.grist.len();
            let mut ok = true;
            let mut j: usize = 0;
            while j < gn
                invariant
                    j <= gn,
                    gn == c.grist@.len(),
                    ok == (forall|x: int|
                        0 <= x < j ==> ((#[trigger] c@.grist[x]).amount is Some
                            && c@.grist[x].valid_name)),
                decreases gn - j,
            {
                if c.grist[j].amount.is_none() || !c.grist[j].valid_name {
                    ok = false;
                    proof {
                        assert(!((c@.grist[j as int]).amount is Some
                            && c@.grist[j as int].valid_name));
                    }
                }
                j = j + 1;
            }
            if !ok {
                proof {
                    assert(!grist_fields_ok(c@.grist));
                }
                let mut text = String::from_str("Invalid grist for ");
                text.append(c.item_id.as_str());
                errors.push(ExportError { text, position: i, invalid: true });
            } else {
                proof {
                    assert(grist_fields_ok(c@.grist));
                }
                // the identifier is valid, so it has a colon to split at
                let ilen = c.item_id.as_str().unicode_len();
                let cpos = find_char_from(c.item_id.as_str(), 0, ':');
                proof {
                    if cpos == ilen {
                        let w = choose|w: int| valid_split(c@.item_id, w);
                        assert(c@.item_id[w] == ':');
                        assert(false);
                    }
                }
                let mut key = String::from_str("data/minestuck/recipes/grist_costs/");
                key.append(c.item_id.as_str().substring_char(0, cpos));
                key.append("/");
                key.append(c.item_id.as_str().substring_char(cpos + 1, ilen));
                proof {
                    reveal_strlit("/");
                    assert(c@.item_id.take(cpos as int) =~= c@.item_id.subrange(0, cpos as int));
                    assert(key@ =~= entry_key(c@.item_id));
                }
                let mut gm = GristMap::new();
                let mut j2: usize = 0;
                while j2 < gn
                    invariant
                        j2 <= gn,
                        gn == c.grist@.len(),
                        grist_fields_ok(c@.grist),
                        gm.wf(),
                        gm@ == fields_costs(c@.grist.take(j2 as int)),
                    decreases gn - j2,
                {
                    let ghost gpre = c@.grist.take(j2 as int);
                    let ghost gcur = c@.grist.take(j2 as int + 1);
                    proof {
                        assert(gcur.drop_last() =~= gpre);
                        assert(gcur.last() == c@.grist[j2 as int]);
                        assert(c@.grist[j2 as int].amount is Some);
                    }
                    let name = grist_resource(c.grist[j2].name.as_str());
                    let amount = c.grist[j2].amount.unwrap();
                    let ghost mpre = gm@;
                    let ghost kk = name@;
                    gm.insert(name, amount);
                    proof {
                        if forall|x: int| 0 <= x < mpre.len() ==> (#[trigger] mpre[x]).0 != kk {
                            crate::lines::lemma_seq_insert_absent(mpre, kk, amount);
                        } else {
                            let w = choose|w: int|
                                0 <= w < mpre.len() && (#[trigger] mpre[w]).0 == kk && gm@
                                    == mpre.update(w, (kk, amount));
                            crate::lines::lemma_seq_insert_present(mpre, w, kk, amount);
                        }
                        assert(gm@ == seq_insert(mpre, kk, amount));
                    }
                    j2 = j2 + 1;
                }
                proof {
                    assert(c@.grist.take(gn as int) =~= c@.grist);
                }
                let dup = pack.recipes.get(key.as_str()).is_some();
                proof {
                    lemma_rec_map_dom(pack.recipes@, key@);
                }
                if dup {
                    let mut text = String::from_str("Duplicate item ");
                    text.append(c.item_id.as_str());
                    errors.push(ExportError { text, position: i, invalid: true });
                }
                if gn == 0 {
                    let mut text = String::from_str("No grist for ");
                    text.append(c.item_id.as_str());
                    errors.push(ExportError { text, position: i, invalid: false });
                }
                let recipe = Recipe::GristCost(
                    GristCostRecipe {
                        priority: Some(101),
                        ingredient: Ingredient::Item(c.item_id.clone()),
                        grist_cost: gm,
                    },
                );
                proof {
                    assert(recipe@ == entry_recipe(c@));
                }
                pack.recipes.insert(key, recipe);
            }
        }
        i = i + 1;
    }
    proof {
        assert(entries_v(costs@).take(n as int) =~= entries_v(costs@));
    }
    (pack, errors)
}

/// The name the editor shows for a grist key: the default namespace is
/// stripped back off.
pub open spec fn display_name(k: Seq<char>) -> Seq<char> {
    if k.len() >= 10 && k.subrange(0, 10) == "minestuck:"@ {
        k.subrange(10, k.len() as int)
    } else {
        k
    }
}

/// The editor row for one stored grist entry.
pub open spec fn spec_field_of(e: (Seq<char>, i32)) -> GristFieldV {
    GristFieldV {
        name: display_name(e.0),
        valid_name: spec_validate(spec_qualify(display_name(e.0))),
        amount_string: dec_int(e.1 as int),
        amount: Some(e.1),
    }
}

/// The editor rows for a stored grist mapping.
pub open spec fn spec_fields_of(gs: Seq<(Seq<char>, i32)>) -> Seq<GristFieldV> {
    Seq::new(gs.len(), |j: int| spec_field_of(gs[j]))
}

/// The blank row a loaded combination recipe contributes.
pub open spec fn blank_entry() -> CostEntryV {
    CostEntryV {
        item_id: Seq::<char>::empty(),
        valid_item: spec_validate(Seq::<char>::empty()),
        grist: seq![
            GristFieldV {
                name: Seq::<char>::empty(),
                valid_name: spec_validate(spec_qualify(Seq::<char>::empty())),
                amount_string: dec_int(0),
                amount: Some(0i32),
            },
        ],
    }
}

/// The editor rows a loaded collection opens with: one filled row per
/// grist-cost recipe with a concrete item, one blank row per combination
/// recipe whose parts are all concrete, nothing for the rest.
pub open spec fn spec_entries_of(rs: Seq<(Seq<char>, RecipeV)>) -> Seq<CostEntryV>
    decreases rs.len(),
{
    if rs.len() == 0 {
        Seq::<CostEntryV>::empty()
    } else {
        let head = spec_entries_of(rs.drop_last());
        match rs.last().1 {
            RecipeV::GristCost(g) => match g.ingredient {
                IngredientV::Item(id) => head.push(
                    CostEntryV {
                        item_id: id,
                        valid_item: spec_validate(id),
                        grist: spec_fields_of(g.grist_cost),
                    },
                ),
                IngredientV::Tag(_) => head,
            },
            RecipeV::Combination(c) => {
                if c.input1 is Item && c.input2 is Item {
                    head.push(blank_entry())
                } else {
                    head
                }
            },
        }
    }
}

/// Opens a loaded pack in the editor: builds the rows its collection
/// denotes.
#[verifier::loop_isolation(false)]
pub fn cost_entries_of(pack: &Datapack) -> (r: Vec<CostEntry>)
    ensures
        entries_v(r@) == spec_entries_of(pack.recipes@),
{
    let n = pack.recipes.len();
    let mut out: Vec<CostEntry> = Vec::new();
    let mut i: usize = 0;
    while i < n
        invariant
            i <= n,
            entries_v(out@) =~= spec_entries_of(pack.recipes@.take(i as int)),
        decreases n - i,
    {
        let ghost pre = pack.recipes@.take(i as int);
        let ghost cur = pack.recipes@.take(i as int + 1);
        proof {
            assert(cur.drop_last() =~= pre);
            assert(cur.last() == pack.recipes@[i as int]);
        }
        let ghost preout = entries_v(out@);
        match pack.recipes.recipe_at(i) {
            Recipe::GristCost(g) => {
                match &g.ingredient {
                    Ingredient::Item(id) => {
                        let gn = g.grist_cost.len();
                        let mut fields: Vec<GristField> = Vec::new();
                        let mut j: usize = 0;
                        while j < gn
                            invariant
                                j <= gn,
                                gn == g.grist_cost@.len(),
                                fields@.len() == j,
                                forall|x: int|
                                    0 <= x < j ==> (#[trigger] fields@[x])@ == spec_field_of(
                                        g.grist_cost@[x],
                                    ),
                            decreases gn - j,
                        {
                            let key = g.grist_cost.key_at(j);
                            let shown: String = if crate::text::starts_with(
                                key.as_str(),
                                "minestuck:",
                            ) {
                                proof {
                                    reveal_strlit("minestuck:");
                                }
                                String::from_str(
                                    key.as_str().substring_char(10, key.as_str().unicode_len()),
                                )
                            } else {
                                proof {
                                    reveal_strlit("minestuck:");
                                }
                                key.clone()
                            };
                            proof {
                                assert(shown@ == display_name(g.grist_cost@[j as int].0));
                            }
                            let f = GristField::new(shown.as_str(), g.grist_cost.amount_at(j));
                            fields.push(f);
                            j = j + 1;
                        }
                        let entry = CostEntry::new(id.as_str(), fields);
                        out.push(entry);
                        proof {
                            assert(entry@.grist =~= spec_fields_of(g.grist_cost@));
                            assert(entries_v(out@) =~= preout.push(entry@));
                            assert(entries_v(out@) =~= spec_entries_of(cur));
                        }
                    },
                    Ingredient::Tag(_) => {
                        proof {
                            assert(entries_v(out@) =~= spec_entries_of(cur));
                        }
                    },
                }
            },
            Recipe::Combination(c) => {
                let concrete = match (&c.input1, &c.input2) {
                    (Ingredient::Item(_), Ingredient::Item(_)) => true,
                    _ => false,
                };
                if concrete {
                    let field = GristField::new("", 0);
                    let entry = CostEntry::new("", vec![field]);
                    out.push(entry);
                    proof {
                        reveal_strlit("");
                        assert(""@ =~= Seq::<char>::empty());
                        assert(entry@.grist =~= blank_entry().grist);
                        assert(entry@ == blank_entry());
                        assert(entries_v(out@) =~= preout.push(entry@));
                        assert(entries_v(out@) =~= spec_entries_of(cur));
                    }
                } else {
                    proof {
                        assert(entries_v(out@) =~= spec_entries_of(cur));
                    }
                }
            },
        }
        i = i + 1;
    }
    proof {
        assert(pack.recipes@.take(n as int) =~= pack.recipes@);
    }
    out
}

} // verus!
