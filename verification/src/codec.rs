//! The canonical JSON text of a recipe: its spec-level form, an emitter,
//! and a strict parser that accepts exactly the canonical form.
//!
//! Each recipe kind has one canonical rendering, with no optional
//! whitespace, so the text of a recipe is unique and saving then loading
//! gives back exactly the recipes that were saved.

use vstd::prelude::*;
use vstd::string::*;
use crate::numbers::{dec_int, is_digit, lemma_dec_stats, lemma_val_of_dec_digits, push_dec_i32};
use crate::recipe::{
    unique_keys, CombinationRecipeV, GristCostRecipeV, GristMap, Ingredient, IngredientV, Recipe,
    RecipeV, ResultItem, ResultItemV,
};
use crate::text::{expect_lit, scan_number_end, scan_to_quote};
use crate::ident::{spec_validate, valid_split};

verus! {

/// No character of `s` is a double quote, so `s` can stand between quotes
/// in JSON text verbatim.
pub open spec fn quote_free(s: Seq<char>) -> bool {
    forall|i: int| 0 <= i < s.len() ==> s[i] != '"'
}

/// Valid identifiers never contain a quote: their character classes are
/// letters, digits and a little punctuation.
pub proof fn lemma_validate_quote_free(s: Seq<char>)
    requires
        spec_validate(s),
    ensures
        quote_free(s),
{
    let i = choose|i: int| valid_split(s, i);
    assert forall|j: int| 0 <= j < s.len() implies s[j] != '"' by {
        if j < i {
            assert(crate::ident::namespace_char(s[j]));
        } else if j > i {
            assert(crate::ident::path_char(s[j]));
        }
    }
}

/// Canonical text of an ingredient.
pub open spec fn json_ingredient(ing: IngredientV) -> Seq<char> {
    match ing {
        IngredientV::Item(id) => "{\"item\":\""@ + id + "\"}"@,
        IngredientV::Tag(id) => "{\"tag\":\""@ + id + "\"}"@,
    }
}

/// Canonical text of a result item.
pub open spec fn json_result(out: ResultItemV) -> Seq<char> {
    match out {
        ResultItemV::Item(id) => "{\"item\":\""@ + id + "\"}"@,
    }
}

/// Canonical text of one grist entry: `"name":amount`.
pub open spec fn json_grist_entry(e: (Seq<char>, i32)) -> Seq<char> {
    seq!['"'] + e.0 + "\":"@ + dec_int(e.1 as int)
}

/// Canonical text of a grist entry list, comma separated.
pub open spec fn json_grist_entries(gs: Seq<(Seq<char>, i32)>) -> Seq<char>
    decreases gs.len(),
{
    if gs.len() == 0 {
        Seq::<char>::empty()
    } else if gs.len() == 1 {
        json_grist_entry(gs[0])
    } else {
        json_grist_entry(gs[0]) + seq![','] + json_grist_entries(gs.drop_first())
    }
}

/// Canonical text of the optional priority field.
pub open spec fn json_priority(p: Option<i32>) -> Seq<char> {
    match p {
        Option::None => Seq::<char>::empty(),
        Option::Some(v) => ",\"priority\":"@ + dec_int(v as int),
    }
}

/// Canonical text of a grist-cost recipe.
pub open spec fn grist_cost_json(g: GristCostRecipeV) -> Seq<char> {
    "{\"type\":\"minestuck:grist_cost\""@ + json_priority(g.priority) + ",\"ingredient\":"@
        + json_ingredient(g.ingredient) + ",\"grist_cost\":{"@ + json_grist_entries(g.grist_cost)
        + "}}"@
}

/// Canonical text of a combination recipe.
pub open spec fn combination_json(c: CombinationRecipeV) -> Seq<char> {
    "{\"type\":\"minestuck:combination\",\"input1\":"@ + json_ingredient(c.input1)
        + ",\"input2\":"@ + json_ingredient(c.input2) + ",\"mode\":\""@ + c.mode.spec_str()
        + "\",\"output\":"@ + json_result(c.output) + "}"@
}

/// Canonical text of a recipe.
pub open spec fn recipe_json(r: RecipeV) -> Seq<char> {
    match r {
        RecipeV::GristCost(g) => grist_cost_json(g),
        RecipeV::Combination(c) => combination_json(c),
    }
}

fn push_ingredient(out: &mut String, ing: &Ingredient)
    ensures
        final(out)@ == old(out)@ + json_ingredient(ing@),
{
    match ing {
        Ingredient::Item(id) => {
            out.append("{\"item\":\"");
            out.append(id.as_str());
            out.append("\"}");
        },
        Ingredient::Tag(id) => {
            out.append("{\"tag\":\"");
            out.append(id.as_str());
            out.append("\"}");
        },
    }
    proof {
        assert(out@ =~= old(out)@ + json_ingredient(ing@));
    }
}

fn push_grist_entries(out: &mut String, gm: &GristMap, i: usize)
    requires
        i <= gm@.len(),
    ensures
        final(out)@ == old(out)@ + json_grist_entries(gm@.skip(i as int)),
    decreases gm@.len() - i,
{
    let n = gm.len();
    if i == n {
        proof {
            assert(gm@.skip(i as int) =~= Seq::<(Seq<char>, i32)>::empty());
            assert(out@ =~= old(out)@ + json_grist_entries(gm@.skip(i as int)));
        }
        return;
    }
    out.append("\"");
    out.append(gm.key_at(i).as_str());
    out.append("\":");
    push_dec_i32(out, gm.amount_at(i));
    proof {
        reveal_strlit("\"");
        assert(gm@.skip(i as int)[0] == gm@[i as int]);
    }
    if i + 1 == n {
        proof {
            assert(gm@.skip(i as int).len() == 1);
            assert(out@ =~= old(out)@ + json_grist_entries(gm@.skip(i as int)));
        }
    } else {
        out.append(",");
        push_grist_entries(out, gm, i + 1);
        proof {
            reveal_strlit(",");
            assert(gm@.skip(i as int).drop_first() =~= gm@.skip(i as int + 1));
            assert(gm@.skip(i as int).len() > 1);
            assert(out@ =~= old(out)@ + json_grist_entries(gm@.skip(i as int)));
        }
    }
}

/// Both ingredient kinds carry a quote-free identifier.
pub open spec fn ing_quote_free(iv: IngredientV) -> bool {
    match iv {
        IngredientV::Item(id) => quote_free(id),
        IngredientV::Tag(id) => quote_free(id),
    }
}

/// All grist keys are quote-free.
pub open spec fn grist_quote_free(gs: Seq<(Seq<char>, i32)>) -> bool {
    forall|i: int| 0 <= i < gs.len() ==> quote_free((#[trigger] gs[i]).0)
}

/// The recipe can be rendered and read back: every identifier that stands
/// between quotes is quote-free, and grist keys are unique.
pub open spec fn recipe_jsonable(rv: RecipeV) -> bool {
    match rv {
        RecipeV::GristCost(g) => {
            &&& ing_quote_free(g.ingredient)
            &&& grist_quote_free(g.grist_cost)
            &&& unique_keys(g.grist_cost)
        },
        RecipeV::Combination(c) => {
            &&& ing_quote_free(c.input1)
            &&& ing_quote_free(c.input2)
            &&& (c.output matches ResultItemV::Item(o) && quote_free(o))
        },
    }
}

/// Splits a known decomposition of a suffix of `s` into its two parts.
pub proof fn lemma_peel(s: Seq<char>, i: int, a: Seq<char>, b: Seq<char>)
    requires
        0 <= i <= s.len(),
        s.subrange(i, s.len() as int) == a + b,
    ensures
        i + a.len() + b.len() == s.len(),
        s.subrange(i, i + a.len()) == a,
        s.subrange(i + a.len(), s.len() as int) == b,
        forall|k: int| 0 <= k < a.len() ==> s[i + k] == a[k],
{
    assert(s.subrange(i, s.len() as int).len() == a.len() + b.len());
    assert forall|k: int| 0 <= k < a.len() implies s[i + k] == a[k] by {
        assert(s.subrange(i, s.len() as int)[k] == a[k]);
    }
    assert(s.subrange(i, i + a.len()) =~= a);
    assert(s.subrange(i + a.len(), s.len() as int) =~= b) by {
        assert forall|k: int| 0 <= k < b.len() implies s.subrange(
            i + a.len(),
            s.len() as int,
        )[k] == b[k] by {
            assert(s.subrange(i, s.len() as int)[a.len() + k] == b[k]);
        }
    }
}

/// A scan for the next quote, run where the text is a quote-free segment
/// followed by a quote, stops exactly at that quote.
pub proof fn lemma_quote_scan_align(s: Seq<char>, k: int, id: Seq<char>, rest: Seq<char>, q: int)
    requires
        0 <= k <= s.len(),
        s.subrange(k, s.len() as int) == id + seq!['"'] + rest,
        quote_free(id),
        k <= q < s.len(),
        s[q] == '"',
        forall|x: int| k <= x < q ==> s[x] != '"',
    ensures
        q == k + id.len(),
        s.subrange(k, q) == id,
{
    lemma_peel(s, k, id + seq!['"'], rest);
    assert(s.subrange(k, s.len() as int) =~= id + (seq!['"'] + rest));
    lemma_peel(s, k, id, seq!['"'] + rest);
    assert(s[k + id.len()] == '"') by {
        assert(s.subrange(k + id.len(), s.len() as int)[0] == '"');
    }
    if q < k + id.len() {
        assert(s[q] == id[q - k]);
        assert(false);
    }
    if q > k + id.len() {
        assert(false);
    }
}

/// A number scan, run where the text is the canonical form of `v`
/// followed by something that starts with neither a digit nor a minus
/// sign, stops exactly at the end of the number.
pub proof fn lemma_number_scan_align(s: Seq<char>, c: int, v: i32, rest: Seq<char>, j: int)
    requires
        0 <= c <= s.len(),
        s.subrange(c, s.len() as int) == dec_int(v as int) + rest,
        rest.len() > 0,
        !is_digit(rest[0]),
        rest[0] != '-',
        ({
            let start_d: int = if c < s.len() && s[c] == '-' {
                c + 1
            } else {
                c
            };
            &&& start_d <= j <= s.len()
            &&& c <= j
            &&& (forall|k: int| start_d <= k < j ==> is_digit(#[trigger] s[k]))
            &&& (j < s.len() ==> !is_digit(s[j]))
        }),
    ensures
        j == c + dec_int(v as int).len(),
        s.subrange(c, j) == dec_int(v as int),
{
    lemma_dec_stats(v as int);
    let d = dec_int(v as int);
    lemma_peel(s, c, d, rest);
    let sign: int = if v < 0 {
        1
    } else {
        0
    };
    assert(s[c] == d[0]);
    let start_d: int = if c < s.len() && s[c] == '-' {
        c + 1
    } else {
        c
    };
    assert(v < 0 ==> s[c] == '-');
    assert(v >= 0 ==> is_digit(s[c]) && s[c] != '-');
    assert(start_d == c + sign);
    let digits = crate::numbers::dec_digits(crate::numbers::dec_mag(v as int));
    assert(forall|t: int| 0 <= t < digits.len() ==> d[sign + t] == digits[t]);
    assert(s[c + d.len()] == rest[0]) by {
        assert(s.subrange(c + d.len(), s.len() as int)[0] == rest[0]);
    }
    if j < c + d.len() {
        assert(is_digit(s[j])) by {
            assert(s[j] == d[j - c]);
            assert(d[j - c] == digits[j - c - sign]);
        }
        assert(false);
    }
    if j > c + d.len() {
        assert(is_digit(s[c + d.len()]));
        assert(false);
    }
}

/// Facts about a string that contains the canonical item object at `i`.
pub proof fn lemma_item_layout(sv: Seq<char>, i: int, idv: Seq<char>, t: Seq<char>)
    requires
        0 <= i <= sv.len(),
        sv.subrange(i, sv.len() as int) == json_ingredient(IngredientV::Item(idv)) + t,
    ensures
        i + 9 + idv.len() + 2 + t.len() == sv.len(),
        sv.subrange(i, i + 9) == "{\"item\":\""@,
        sv.subrange(i + 9, i + 9 + idv.len()) == idv,
        forall|x: int| i + 9 <= x < i + 9 + idv.len() ==> sv[x] == idv[x - i - 9],
        sv[i + 9 + idv.len()] == '"',
        sv[i + 9 + idv.len() + 1] == '}',
        sv.subrange(i + 9 + idv.len() + 2, sv.len() as int) == t,
{
    reveal_strlit("{\"item\":\"");
    reveal_strlit("\"}");
    let lit1 = "{\"item\":\""@;
    let lit2 = "\"}\""@;
    assert(sv.subrange(i, sv.len() as int) =~= lit1 + (idv + ("\"}"@ + t)));
    lemma_peel(sv, i, lit1, idv + ("\"}"@ + t));
    lemma_peel(sv, i + 9, idv, "\"}"@ + t);
    lemma_peel(sv, i + 9 + idv.len(), "\"}"@, t);
    assert(sv[i + 9 + idv.len()] == "\"}"@[0]);
    assert(sv[i + 9 + idv.len() + 1] == "\"}"@[1]);
}

/// Facts about a string that contains the canonical tag object at `i`.
pub proof fn lemma_tag_layout(sv: Seq<char>, i: int, idv: Seq<char>, t: Seq<char>)
    requires
        0 <= i <= sv.len(),
        sv.subrange(i, sv.len() as int) == json_ingredient(IngredientV::Tag(idv)) + t,
    ensures
        i + 8 + idv.len() + 2 + t.len() == sv.len(),
        sv.subrange(i, i + 8) == "{\"tag\":\""@,
        sv.subrange(i + 8, i + 8 + idv.len()) == idv,
        forall|x: int| i + 8 <= x < i + 8 + idv.len() ==> sv[x] == idv[x - i - 8],
        sv[i + 8 + idv.len()] == '"',
        sv[i + 8 + idv.len() + 1] == '}',
        sv.subrange(i + 8 + idv.len() + 2, sv.len() as int) == t,
{
    reveal_strlit("{\"tag\":\"");
    reveal_strlit("\"}");
    let lit1 = "{\"tag\":\""@;
    assert(sv.subrange(i, sv.len() as int) =~= lit1 + (idv + ("\"}"@ + t)));
    lemma_peel(sv, i, lit1, idv + ("\"}"@ + t));
    lemma_peel(sv, i + 8, idv, "\"}"@ + t);
    lemma_peel(sv, i + 8 + idv.len(), "\"}"@, t);
    assert(sv[i + 8 + idv.len()] == "\"}"@[0]);
    assert(sv[i + 8 + idv.len() + 1] == "\"}"@[1]);
}

/// The hypothesis that the text at `i` continues with some canonical
/// ingredient object followed by `t`.
pub open spec fn ing_at(sv: Seq<char>, i: int, iv: IngredientV, t: Seq<char>) -> bool {
    &&& ing_quote_free(iv)
    &&& sv.subrange(i, sv.len() as int) == json_ingredient(iv) + t
}

/// Parses an ingredient object at position `i`, accepting exactly the
/// canonical rendering.
fn parse_ingredient(s: &str, i: usize) -> (r: Option<(Ingredient, usize)>)
    requires
        i <= s@.len(),
    ensures
        (r matches Some(p) ==> {
            &&& i <= p.1 <= s@.len()
            &&& s@.subrange(i as int, p.1 as int) == json_ingredient(p.0@)
            &&& ing_quote_free(p.0@)
        }),
        (forall|iv: IngredientV, t: Seq<char>|
            ing_at(s@, i as int, iv, t) ==> (r matches Some(p) && p.0@ == iv && p.1 == i
                + json_ingredient(iv).len())),
{
    proof {
        reveal_strlit("{\"item\":\"");
        reveal_strlit("{\"tag\":\"");
        reveal_strlit("\"}");
    }
    let ghost sv = s@;
    let ghost n = s@.len() as int;
    let item_start = expect_lit(s, i, "{\"item\":\"");
    let tag_start = if item_start.is_none() {
        expect_lit(s, i, "{\"tag\":\"")
    } else {
        None
    };
    proof {
        assert forall|iv: IngredientV, t: Seq<char>| ing_at(sv, i as int, iv, t) implies match iv {
            IngredientV::Item(idv) => item_start == Some((i + 9) as usize),
            IngredientV::Tag(idv) => tag_start == Some((i + 8) as usize),
        } by {
            match iv {
                IngredientV::Item(idv) => {
                    lemma_item_layout(sv, i as int, idv, t);
                },
                IngredientV::Tag(idv) => {
                    lemma_tag_layout(sv, i as int, idv, t);
                    if item_start matches Some(k) {
                        assert(sv.subrange(i as int, i + 9)[2] == 'i');
                        assert(sv[i + 2] == 't');
                        assert(false);
                    }
                },
            }
        }
    }
    let (k, is_item): (usize, bool) = if let Some(k) = item_start {
        (k, true)
    } else if let Some(k) = tag_start {
        (k, false)
    } else {
        proof {
            assert forall|iv: IngredientV, t: Seq<char>| !ing_at(sv, i as int, iv, t) by {}
        }
        return None;
    };
    // after the opening text, the identifier runs to the next quote
    match scan_to_quote(s, k) {
        Some(q) => {
            match expect_lit(s, q, "\"}") {
                Some(e) => {
                    let id = String::from_str(s.substring_char(k, q));
                    let ing = if is_item {
                        Ingredient::Item(id)
                    } else {
                        Ingredient::Tag(id)
                    };
                    proof {
                        assert(sv.subrange(i as int, e as int) =~= sv.subrange(i as int, k as int)
                            + sv.subrange(k as int, q as int) + sv.subrange(q as int, e as int));
                        assert(sv.subrange(i as int, e as int) == json_ingredient(ing@));
                        assert forall|iv: IngredientV, t: Seq<char>|
                            ing_at(sv, i as int, iv, t) implies ing@ == iv && e == i
                            + json_ingredient(iv).len() by {
                            match iv {
                                IngredientV::Item(idv) => {
                                    lemma_item_layout(sv, i as int, idv, t);
                                    if q < k + idv.len() {
                                        assert(sv[q as int] == idv[q - k]);
                                        assert(false);
                                    }
                                    if q > k + idv.len() {
                                        assert(sv[k + idv.len()] == '"');
                                        assert(false);
                                    }
                                    assert(sv.subrange(k as int, q as int) == idv);
                                },
                                IngredientV::Tag(idv) => {
                                    lemma_tag_layout(sv, i as int, idv, t);
                                    if q < k + idv.len() {
                                        assert(sv[q as int] == idv[q - k]);
                                        assert(false);
                                    }
                                    if q > k + idv.len() {
                                        assert(sv[k + idv.len()] == '"');
                                        assert(false);
                                    }
                                    assert(sv.subrange(k as int, q as int) == idv);
                                },
                            }
                        }
                    }
                    Some((ing, e))
                },
                None => {
                    proof {
                        assert forall|iv: IngredientV, t: Seq<char>|
                            !ing_at(sv, i as int, iv, t) by {
                            if ing_at(sv, i as int, iv, t) {
                                match iv {
                                    IngredientV::Item(idv) => {
                                        lemma_item_layout(sv, i as int, idv, t);
                                        if q < k + idv.len() {
                                            assert(sv[q as int] == idv[q - k]);
                                        }
                                        if q > k + idv.len() {
                                            assert(sv[k + idv.len()] == '"');
                                        }
                                        assert(q == k + idv.len());
                                        assert(sv.subrange(q as int, q + 2) =~= "\"}"@);
                                        assert(false);
                                    },
                                    IngredientV::Tag(idv) => {
                                        lemma_tag_layout(sv, i as int, idv, t);
                                        if q < k + idv.len() {
                                            assert(sv[q as int] == idv[q - k]);
                                        }
                                        if q > k + idv.len() {
                                            assert(sv[k + idv.len()] == '"');
                                        }
                                        assert(q == k + idv.len());
                                        assert(sv.subrange(q as int, q + 2) =~= "\"}"@);
                                        assert(false);
                                    },
                                }
                            }
                        }
                    }
                    None
                },
            }
        },
        None => {
            proof {
                assert forall|iv: IngredientV, t: Seq<char>| !ing_at(sv, i as int, iv, t) by {
                    if ing_at(sv, i as int, iv, t) {
                        match iv {
                            IngredientV::Item(idv) => {
                                lemma_item_layout(sv, i as int, idv, t);
                                assert(sv[k + idv.len()] == '"');
                                assert(false);
                            },
                            IngredientV::Tag(idv) => {
                                lemma_tag_layout(sv, i as int, idv, t);
                                assert(sv[k + idv.len()] == '"');
                                assert(false);
                            },
                        }
                    }
                }
            }
            None
        },
    }
}

/// The hypothesis that the text at `i` continues with the canonical
/// entry list `gs`, a closing `}}`, and `t`.
pub open spec fn gs_at(sv: Seq<char>, i: int, gs: Seq<(Seq<char>, i32)>, t: Seq<char>) -> bool {
    &&& unique_keys(gs)
    &&& grist_quote_free(gs)
    &&& sv.subrange(i, sv.len() as int) == json_grist_entries(gs) + "}}"@ + t
}

/// What follows the first entry of a non-empty entry list: the separator
/// and the rest of the text.
pub open spec fn gs_rest(gs: Seq<(Seq<char>, i32)>, t: Seq<char>) -> Seq<char> {
    if gs.len() == 1 {
        "}}"@ + t
    } else {
        seq![','] + (json_grist_entries(gs.drop_first()) + "}}"@ + t)
    }
}

/// Facts about a string that continues with a non-empty canonical entry
/// list at `i`.
pub proof fn lemma_gs_layout(sv: Seq<char>, i: int, gs: Seq<(Seq<char>, i32)>, t: Seq<char>)
    requires
        0 <= i <= sv.len(),
        gs_at(sv, i, gs, t),
        gs.len() >= 1,
    ensures
        ({
            let key = gs[0].0;
            let d = dec_int(gs[0].1 as int);
            let c0 = i + 3 + key.len();
            &&& i + 1 + key.len() + 2 + d.len() <= sv.len()
            &&& sv[i] == '"'
            &&& sv.subrange(i, i + 1) == "\""@
            &&& (forall|x: int| 0 <= x < key.len() ==> sv[i + 1 + x] == key[x])
            &&& sv[i + 1 + key.len()] == '"'
            &&& sv.subrange(i + 1 + key.len(), c0) == "\":"@
            &&& sv.subrange(c0, sv.len() as int) == d + gs_rest(gs, t)
            &&& gs_rest(gs, t).len() > 0
            &&& !is_digit(gs_rest(gs, t)[0])
            &&& gs_rest(gs, t)[0] != '-'
            &&& gs_rest(gs, t)[0] == (if gs.len() == 1 { '}' } else { ',' })
            &&& sv[c0 + d.len()] == (if gs.len() == 1 { '}' } else { ',' })
            &&& (gs.len() == 1 ==> sv.subrange(c0 + d.len(), c0 + d.len() + 2) == "}}"@
                && c0 + d.len() + 2 + t.len() == sv.len())
            &&& (gs.len() > 1 ==> sv.subrange(c0 + d.len() + 1, sv.len() as int)
                == json_grist_entries(gs.drop_first()) + "}}"@ + t)
            &&& json_grist_entries(gs).len() == 3 + key.len() + d.len() + (if gs.len() == 1 {
                0int
            } else {
                1 + json_grist_entries(gs.drop_first()).len() as int
            })
        }),
{
    reveal_strlit("\"");
    reveal_strlit("\":");
    reveal_strlit("}}");
    let key = gs[0].0;
    let d = dec_int(gs[0].1 as int);
    let c0 = i + 3 + key.len();
    lemma_dec_stats(gs[0].1 as int);
    assert(d.len() >= 1);
    assert(quote_free(key));
    let entry = json_grist_entry(gs[0]);
    assert(entry == seq!['"'] + key + "\":"@ + d);
    let rest = gs_rest(gs, t);
    assert(sv.subrange(i, sv.len() as int) =~= seq!['"'] + (key + ("\":"@ + (d + rest)))) by {
        if gs.len() == 1 {
            assert(json_grist_entries(gs) == entry);
        } else {
            assert(json_grist_entries(gs) == entry + seq![','] + json_grist_entries(
                gs.drop_first(),
            ));
        }
    }
    lemma_peel(sv, i, seq!['"'], key + ("\":"@ + (d + rest)));
    assert(sv.subrange(i, i + 1) =~= "\""@);
    assert(sv[i] == sv.subrange(i, i + 1)[0]);
    lemma_peel(sv, i + 1, key, "\":"@ + (d + rest));
    lemma_peel(sv, i + 1 + key.len(), "\":"@, d + rest);
    assert(sv[i + 1 + key.len()] == "\":"@[0]);
    lemma_peel(sv, c0, d, rest);
    assert(rest[0] != '"' && rest[0] != '-' && !is_digit(rest[0]) && rest.len() > 0) by {
        if gs.len() == 1 {
            assert(rest =~= "}}"@ + t);
            assert(rest[0] == '}');
        } else {
            assert(rest[0] == ',');
        }
    }
    assert(sv[c0 + d.len()] == rest[0]);
    if gs.len() == 1 {
        assert(rest =~= "}}"@ + t);
        lemma_peel(sv, c0 + d.len(), "}}"@, t);
    } else {
        assert(rest =~= seq![','] + (json_grist_entries(gs.drop_first()) + "}}"@ + t));
        lemma_peel(sv, c0 + d.len(), seq![','], json_grist_entries(gs.drop_first()) + "}}"@ + t);
    }
}

/// Unique keys and quote-freeness pass to the tail of the list.
pub proof fn lemma_gs_tail_wf(gs: Seq<(Seq<char>, i32)>)
    requires
        gs.len() >= 1,
        unique_keys(gs),
        grist_quote_free(gs),
    ensures
        unique_keys(gs.drop_first()),
        grist_quote_free(gs.drop_first()),
{
    let d = gs.drop_first();
    assert forall|a: int, b: int| 0 <= a < b < d.len() implies (#[trigger] d[a]).0
        != (#[trigger] d[b]).0 by {
        assert(d[a] == gs[a + 1] && d[b] == gs[b + 1]);
    }
    assert forall|a: int| 0 <= a < d.len() implies quote_free((#[trigger] d[a]).0) by {
        assert(d[a] == gs[a + 1]);
    }
}

/// Parses the tail of a grist-cost object at `i`: a canonical entry list
/// followed by the closing braces, and nothing else after them.
#[verifier::rlimit(100)]
#[verifier::spinoff_prover]
fn parse_grist_tail(s: &str, i: usize) -> (r: Option<(GristMap, usize)>)
    requires
        i <= s@.len(),
    ensures
        (r matches Some(p) ==> {
            &&& i <= p.1 <= s@.len()
            &&& p.0.wf()
            &&& grist_quote_free(p.0@)
            &&& s@.subrange(i as int, p.1 as int) == json_grist_entries(p.0@) + "}}"@
        }),
        (forall|gs: Seq<(Seq<char>, i32)>, t: Seq<char>|
            gs_at(s@, i as int, gs, t) ==> (r matches Some(p) && p.0@ == gs && p.1 == i
                + json_grist_entries(gs).len() + 2)),
    decreases s@.len() - i,
{
    proof {
        reveal_strlit("}}");
        reveal_strlit("\"");
        reveal_strlit("\":");
        reveal_strlit(",");
    }
    let ghost sv = s@;
    let ghost n = s@.len() as int;
    if let Some(e) = expect_lit(s, i, "}}") {
        let gm = GristMap::new();
        proof {
            assert(sv.subrange(i as int, e as int) =~= json_grist_entries(gm@) + "}}"@);
            assert forall|gs: Seq<(Seq<char>, i32)>, t: Seq<char>|
                gs_at(sv, i as int, gs, t) implies gm@ == gs && e == i + json_grist_entries(
                gs,
            ).len() + 2 by {
                if gs.len() >= 1 {
                    lemma_gs_layout(sv, i as int, gs, t);
                    assert(sv.subrange(i as int, i + 2)[0] == '}');
                    assert(false);
                }
                assert(gs =~= gm@);
            }
        }
        return Some((gm, e));
    }
    let k1 = match expect_lit(s, i, "\"") {
        Some(x) => x,
        None => {
            proof {
                assert forall|gs: Seq<(Seq<char>, i32)>, t: Seq<char>|
                    !gs_at(sv, i as int, gs, t) by {
                    if gs_at(sv, i as int, gs, t) {
                        if gs.len() == 0 {
                            lemma_peel(sv, i as int, "}}"@, t);
                            assert(sv.subrange(i as int, i + 2) == "}}"@);
                            assert(false);
                        } else {
                            lemma_gs_layout(sv, i as int, gs, t);
                            assert(sv.subrange(i as int, i + 1) == "\""@);
                            assert(false);
                        }
                    }
                }
            }
            return None;
        },
    };
    let q = match scan_to_quote(s, k1) {
        Some(x) => x,
        None => {
            proof {
                assert forall|gs: Seq<(Seq<char>, i32)>, t: Seq<char>|
                    !gs_at(sv, i as int, gs, t) by {
                    if gs_at(sv, i as int, gs, t) {
                        if gs.len() == 0 {
                            lemma_peel(sv, i as int, "}}"@, t);
                            assert(sv[i as int] == '}');
                            assert(sv.subrange(i as int, i + 1)[0] == '}');
                            assert(false);
                        } else {
                            lemma_gs_layout(sv, i as int, gs, t);
                            assert(sv[k1 + gs[0].0.len()] == '"');
                            assert(false);
                        }
                    }
                }
            }
            return None;
        },
    };
    let key = String::from_str(s.substring_char(k1, q));
    let c = match expect_lit(s, q, "\":") {
        Some(x) => x,
        None => {
            proof {
                assert forall|gs: Seq<(Seq<char>, i32)>, t: Seq<char>|
                    !gs_at(sv, i as int, gs, t) by {
                    if gs_at(sv, i as int, gs, t) {
                        if gs.len() == 0 {
                            lemma_peel(sv, i as int, "}}"@, t);
                            assert(sv.subrange(i as int, i + 1)[0] == '}');
                            assert(false);
                        } else {
                            lemma_gs_layout(sv, i as int, gs, t);
                            let key0 = gs[0].0;
                            if q < k1 + key0.len() {
                                assert(sv[q as int] == key0[q - k1]);
                                assert(quote_free(key0));
                                assert(false);
                            }
                            if q > k1 + key0.len() {
                                assert(sv[k1 + key0.len()] == '"');
                                assert(false);
                            }
                            assert(sv.subrange(q as int, q + 2) == "\":"@);
                            assert(false);
                        }
                    }
                }
            }
            return None;
        },
    };
    let j0 = scan_number_end(s, c);
    let amt = match crate::numbers::parse_i32(s.substring_char(c, j0)) {
        Some(v) => v,
        None => {
            proof {
                assert forall|gs: Seq<(Seq<char>, i32)>, t: Seq<char>|
                    !gs_at(sv, i as int, gs, t) by {
                    if gs_at(sv, i as int, gs, t) {
                        if gs.len() == 0 {
                            lemma_peel(sv, i as int, "}}"@, t);
                            assert(sv.subrange(i as int, i + 1)[0] == '}');
                            assert(false);
                        } else {
                            lemma_gs_layout(sv, i as int, gs, t);
                            let key0 = gs[0].0;
                            if q < k1 + key0.len() {
                                assert(sv[q as int] == key0[q - k1]);
                                assert(false);
                            }
                            if q > k1 + key0.len() {
                                assert(sv[k1 + key0.len()] == '"');
                                assert(false);
                            }
                            lemma_number_scan_align(
                                sv,
                                c as int,
                                gs[0].1,
                                gs_rest(gs, t),
                                j0 as int,
                            );
                            assert(sv.subrange(c as int, j0 as int) == dec_int(gs[0].1 as int));
                            assert(false);
                        }
                    }
                }
            }
            return None;
        },
    };
    proof {
        assert forall|gs: Seq<(Seq<char>, i32)>, t: Seq<char>|
            gs_at(sv, i as int, gs, t) implies gs.len() >= 1 && q == k1 + gs[0].0.len()
            && key@ == gs[0].0 && j0 == c + dec_int(gs[0].1 as int).len() && amt == gs[0].1 by {
            if gs.len() == 0 {
                lemma_peel(sv, i as int, "}}"@, t);
                assert(sv.subrange(i as int, i + 1)[0] == '}');
                assert(false);
            }
            lemma_gs_layout(sv, i as int, gs, t);
            let key0 = gs[0].0;
            if q < k1 + key0.len() {
                assert(sv[q as int] == key0[q - k1]);
                assert(false);
            }
            if q > k1 + key0.len() {
                assert(sv[k1 + key0.len()] == '"');
                assert(false);
            }
            assert(key@ =~= key0);
            lemma_number_scan_align(sv, c as int, gs[0].1, gs_rest(gs, t), j0 as int);
            assert(sv.subrange(c as int, j0 as int) == dec_int(gs[0].1 as int));
        }
    }
    if let Some(x) = expect_lit(s, j0, ",") {
        match parse_grist_tail(s, x) {
            Some((rest, j)) => {
                if rest.len() == 0 {
                    proof {
                        assert forall|gs: Seq<(Seq<char>, i32)>, t: Seq<char>|
                            !gs_at(sv, i as int, gs, t) by {
                            if gs_at(sv, i as int, gs, t) {
                                lemma_gs_layout(sv, i as int, gs, t);
                                if gs.len() == 1 {
                                    assert(sv.subrange(j0 as int, j0 as int + 1)[0] == '}');
                                    assert(false);
                                }
                                lemma_gs_tail_wf(gs);
                                assert(gs_at(sv, x as int, gs.drop_first(), t));
                                assert(false);
                            }
                        }
                    }
                    return None;
                }
                match rest.get(key.as_str()) {
                    Some(_) => {
                        proof {
                            assert forall|gs: Seq<(Seq<char>, i32)>, t: Seq<char>|
                                !gs_at(sv, i as int, gs, t) by {
                                if gs_at(sv, i as int, gs, t) {
                                    lemma_gs_layout(sv, i as int, gs, t);
                                    if gs.len() == 1 {
                                        assert(sv.subrange(j0 as int, j0 as int + 1)[0] == '}');
                                        assert(false);
                                    }
                                    lemma_gs_tail_wf(gs);
                                    assert(gs_at(sv, x as int, gs.drop_first(), t));
                                    assert(rest@ == gs.drop_first());
                                    let w = choose|w: int|
                                        0 <= w < rest@.len() && (#[trigger] rest@[w]).0 == key@;
                                    assert(gs[w + 1].0 == gs[0].0);
                                    assert(false);
                                }
                            }
                        }
                        None
                    },
                    None => {
                        let ghost restv = rest@;
                        let gm = rest.prepend(key, amt);
                        proof {
                            assert(gm@ =~= seq![(key@, amt)] + restv);
                            assert(gm@.drop_first() =~= restv);
                            assert(gm@[0] == (key@, amt));
                            assert(gm.wf()) by {
                                assert forall|a: int, b: int|
                                    0 <= a < b < gm@.len() implies (#[trigger] gm@[a]).0
                                    != (#[trigger] gm@[b]).0 by {
                                    if a == 0 {
                                        assert(restv[b - 1].0 != key@);
                                    } else {
                                        assert(restv[a - 1].0 != restv[b - 1].0);
                                    }
                                }
                            }
                            assert(grist_quote_free(gm@)) by {
                                assert forall|a: int|
                                    0 <= a < gm@.len() implies quote_free(
                                    (#[trigger] gm@[a]).0,
                                ) by {
                                    if a == 0 {
                                        assert(forall|y: int|
                                            k1 <= y < q ==> sv[y] != '"');
                                        assert forall|y: int|
                                            0 <= y < key@.len() implies key@[y] != '"' by {
                                            assert(key@[y] == sv.subrange(k1 as int, q as int)[y]);
                                        }
                                    } else {
                                        assert(quote_free(restv[a - 1].0));
                                    }
                                }
                            }
                            // soundness: assemble the parsed pieces
                            assert(json_grist_entries(gm@) == json_grist_entry((key@, amt))
                                + seq![','] + json_grist_entries(restv));
                            assert(sv.subrange(i as int, j as int) =~= sv.subrange(
                                i as int,
                                k1 as int,
                            ) + sv.subrange(k1 as int, q as int) + sv.subrange(q as int, c as int)
                                + sv.subrange(c as int, j0 as int) + sv.subrange(
                                j0 as int,
                                x as int,
                            ) + sv.subrange(x as int, j as int));
                            assert(sv.subrange(i as int, j as int) =~= json_grist_entries(gm@)
                                + "}}"@);
                            // completeness
                            assert forall|gs: Seq<(Seq<char>, i32)>, t: Seq<char>|
                                gs_at(sv, i as int, gs, t) implies gm@ == gs && j == i
                                + json_grist_entries(gs).len() + 2 by {
                                lemma_gs_layout(sv, i as int, gs, t);
                                if gs.len() == 1 {
                                    assert(sv.subrange(j0 as int, j0 as int + 1)[0] == '}');
                                    assert(false);
                                }
                                lemma_gs_tail_wf(gs);
                                assert(gs_at(sv, x as int, gs.drop_first(), t));
                                assert(restv == gs.drop_first());
                                assert(gm@ =~= gs);
                            }
                        }
                        Some((gm, j))
                    },
                }
            },
            None => {
                proof {
                    assert forall|gs: Seq<(Seq<char>, i32)>, t: Seq<char>|
                        !gs_at(sv, i as int, gs, t) by {
                        if gs_at(sv, i as int, gs, t) {
                            lemma_gs_layout(sv, i as int, gs, t);
                            if gs.len() == 1 {
                                assert(sv.subrange(j0 as int, j0 as int + 1)[0] == '}');
                                assert(false);
                            }
                            lemma_gs_tail_wf(gs);
                            assert(gs_at(sv, x as int, gs.drop_first(), t));
                            assert(false);
                        }
                    }
                }
                None
            },
        }
    } else if let Some(e) = expect_lit(s, j0, "}}") {
        let gm = GristMap::new().prepend(key, amt);
        proof {
            assert(gm@ =~= seq![(key@, amt)]);
            assert(gm@.len() == 1);
            assert(json_grist_entries(gm@) == json_grist_entry((key@, amt)));
            assert(gm.wf());
            assert(grist_quote_free(gm@)) by {
                assert forall|y: int| 0 <= y < key@.len() implies key@[y] != '"' by {
                    assert(key@[y] == sv.subrange(k1 as int, q as int)[y]);
                }
            }
            assert(sv.subrange(i as int, e as int) =~= sv.subrange(i as int, k1 as int)
                + sv.subrange(k1 as int, q as int) + sv.subrange(q as int, c as int) + sv.subrange(
                c as int,
                j0 as int,
            ) + sv.subrange(j0 as int, e as int));
            assert(sv.subrange(i as int, e as int) =~= json_grist_entries(gm@) + "}}"@);
            assert forall|gs: Seq<(Seq<char>, i32)>, t: Seq<char>|
                gs_at(sv, i as int, gs, t) implies gm@ == gs && e == i + json_grist_entries(
                gs,
            ).len() + 2 by {
                lemma_gs_layout(sv, i as int, gs, t);
                if gs.len() > 1 {
                    assert(sv.subrange(j0 as int, j0 + 2)[0] == ',');
                    assert(false);
                }
                assert(gm@ =~= gs);
            }
        }
        Some((gm, e))
    } else {
        proof {
            assert forall|gs: Seq<(Seq<char>, i32)>, t: Seq<char>| !gs_at(sv, i as int, gs, t) by {
                if gs_at(sv, i as int, gs, t) {
                    lemma_gs_layout(sv, i as int, gs, t);
                    if gs.len() == 1 {
                        assert(sv.subrange(j0 as int, j0 + 2) =~= "}}"@);
                        assert(false);
                    } else {
                        assert(sv.subrange(j0 as int, j0 as int + 1) =~= ","@);
                        assert(false);
                    }
                }
            }
        }
        None
    }
}

/// Serializes a recipe as its canonical JSON text.
pub fn recipe_to_json(r: &Recipe) -> (out: String)
    ensures
        out@ == recipe_json(r@),
{
    let mut out = String::new();
    match r {
        Recipe::GristCost(g) => {
            out.append("{\"type\":\"minestuck:grist_cost\"");
            match &g.priority {
                Option::Some(v) => {
                    out.append(",\"priority\":");
                    push_dec_i32(&mut out, *v);
                },
                Option::None => {},
            }
            out.append(",\"ingredient\":");
            push_ingredient(&mut out, &g.ingredient);
            out.append(",\"grist_cost\":{");
            push_grist_entries(&mut out, &g.grist_cost, 0);
            out.append("}}");
            proof {
                assert(g.grist_cost@.skip(0) =~= g.grist_cost@);
                assert(out@ =~= recipe_json(r@));
            }
        },
        Recipe::Combination(c) => {
            out.append("{\"type\":\"minestuck:combination\",\"input1\":");
            push_ingredient(&mut out, &c.input1);
            out.append(",\"input2\":");
            push_ingredient(&mut out, &c.input2);
            out.append(",\"mode\":\"");
            out.append(c.mode.as_str());
            out.append("\",\"output\":");
            match &c.output {
                ResultItem::Item(id) => {
                    out.append("{\"item\":\"");
                    out.append(id.as_str());
                    out.append("\"}");
                },
            }
            out.append("}");
            proof {
                assert(out@ =~= recipe_json(r@));
            }
        },
    }
    out
}

/// Facts about the text of a grist-cost recipe.
pub proof fn lemma_grist_layout(sv: Seq<char>, g: GristCostRecipeV)
    requires
        sv == grist_cost_json(g),
        ing_quote_free(g.ingredient),
        grist_quote_free(g.grist_cost),
        unique_keys(g.grist_cost),
    ensures
        ({
            let pr = json_priority(g.priority);
            let o1 = 30 + pr.len() as int;
            let ji = json_ingredient(g.ingredient);
            let o2 = o1 + 14;
            let o3 = o2 + ji.len() as int;
            let o4 = o3 + 15;
            let ges = json_grist_entries(g.grist_cost);
            &&& sv.len() == o4 + ges.len() + 2
            &&& sv.subrange(0, 30) == "{\"type\":\"minestuck:grist_cost\""@
            &&& sv[19] == 'g'
            &&& sv[32] == (if g.priority is Some {
                'p'
            } else {
                'i'
            })
            &&& (g.priority matches Some(p) ==> sv.subrange(30, 42) == ",\"priority\":"@
                && sv.subrange(42, sv.len() as int) == dec_int(p as int) + (",\"ingredient\":"@
                + (ji + (",\"grist_cost\":{"@ + (ges + "}}"@)))))
            &&& sv.subrange(o1, o2) == ",\"ingredient\":"@
            &&& ing_at(sv, o2, g.ingredient, ",\"grist_cost\":{"@ + (ges + "}}"@))
            &&& sv.subrange(o3, o4) == ",\"grist_cost\":{"@
            &&& gs_at(sv, o4, g.grist_cost, Seq::<char>::empty())
        }),
{
    reveal_strlit("{\"type\":\"minestuck:grist_cost\"");
    reveal_strlit(",\"priority\":");
    reveal_strlit(",\"ingredient\":");
    reveal_strlit(",\"grist_cost\":{");
    reveal_strlit("}}");
    let p0 = "{\"type\":\"minestuck:grist_cost\""@;
    let pr = json_priority(g.priority);
    let ji = json_ingredient(g.ingredient);
    let ges = json_grist_entries(g.grist_cost);
    let o1 = 30 + pr.len() as int;
    let o2 = o1 + 14;
    let o3 = o2 + ji.len() as int;
    let o4 = o3 + 15;
    assert(sv.subrange(0, sv.len() as int) =~= sv);
    assert(sv =~= p0 + (pr + (",\"ingredient\":"@ + (ji + (",\"grist_cost\":{"@ + (ges
        + "}}"@))))));
    lemma_peel(sv, 0, p0, pr + (",\"ingredient\":"@ + (ji + (",\"grist_cost\":{"@ + (ges
        + "}}"@)))));
    assert(sv[19] == p0[19]);
    lemma_peel(sv, 30, pr, ",\"ingredient\":"@ + (ji + (",\"grist_cost\":{"@ + (ges + "}}"@))));
    lemma_peel(sv, o1, ",\"ingredient\":"@, ji + (",\"grist_cost\":{"@ + (ges + "}}"@)));
    lemma_peel(sv, o2, ji, ",\"grist_cost\":{"@ + (ges + "}}"@));
    lemma_peel(sv, o3, ",\"grist_cost\":{"@, ges + "}}"@);
    assert(sv.subrange(o2, sv.len() as int) == ji + (",\"grist_cost\":{"@ + (ges + "}}"@)));
    assert(ges + "}}"@ + Seq::<char>::empty() =~= ges + "}}"@);
    match g.priority {
        Some(p) => {
            assert(pr == ",\"priority\":"@ + dec_int(p as int));
            assert(sv.subrange(30, sv.len() as int) =~= ",\"priority\":"@ + (dec_int(p as int)
                + (",\"ingredient\":"@ + (ji + (",\"grist_cost\":{"@ + (ges + "}}"@))))));
            lemma_peel(sv, 30, ",\"priority\":"@, dec_int(p as int) + (",\"ingredient\":"@ + (ji
                + (",\"grist_cost\":{"@ + (ges + "}}"@)))));
            assert(sv[32] == ",\"priority\":"@[2]);
        },
        None => {
            assert(pr =~= Seq::<char>::empty());
            assert(o1 == 30);
            assert(sv[32] == ",\"ingredient\":"@[2]);
        },
    }
}

/// Facts about the text of a combination recipe.
pub proof fn lemma_comb_layout(sv: Seq<char>, c: CombinationRecipeV)
    requires
        sv == combination_json(c),
        ing_quote_free(c.input1),
        ing_quote_free(c.input2),
        c.output matches ResultItemV::Item(o) && quote_free(o),
    ensures
        ({
            let j1 = json_ingredient(c.input1);
            let o2 = 41 + j1.len() as int;
            let o3 = o2 + 10;
            let j2 = json_ingredient(c.input2);
            let o4 = o3 + j2.len() as int;
            let o5 = o4 + 9;
            let ms = c.mode.spec_str();
            let o6 = o5 + ms.len() as int;
            let o7 = o6 + 11;
            let jr = json_result(c.output);
            let o8 = o7 + jr.len() as int;
            &&& sv.len() == o8 + 1
            &&& sv.subrange(0, 41) == "{\"type\":\"minestuck:combination\",\"input1\":"@
            &&& sv[19] == 'c'
            &&& ing_at(sv, 41, c.input1, ",\"input2\":"@ + (j2 + (",\"mode\":\""@ + (ms
                + ("\",\"output\":"@ + (jr + "}"@))))))
            &&& sv.subrange(o2, o3) == ",\"input2\":"@
            &&& ing_at(sv, o3, c.input2, ",\"mode\":\""@ + (ms + ("\",\"output\":"@ + (jr
                + "}"@))))
            &&& sv.subrange(o4, o5) == ",\"mode\":\""@
            &&& sv.subrange(o5, o6) == ms
            &&& (forall|x: int| 0 <= x < ms.len() ==> sv[o5 + x] == ms[x])
            &&& sv.subrange(o6, o7) == "\",\"output\":"@
            &&& (c.output matches ResultItemV::Item(o) && ing_at(sv, o7, IngredientV::Item(o),
                "}"@))
            &&& sv.subrange(o8, sv.len() as int) == "}"@
        }),
{
    reveal_strlit("{\"type\":\"minestuck:combination\",\"input1\":");
    reveal_strlit(",\"input2\":");
    reveal_strlit(",\"mode\":\"");
    reveal_strlit("\",\"output\":");
    reveal_strlit("}");
    let p0 = "{\"type\":\"minestuck:combination\",\"input1\":"@;
    let j1 = json_ingredient(c.input1);
    let o2 = 41 + j1.len() as int;
    let o3 = o2 + 10;
    let j2 = json_ingredient(c.input2);
    let o4 = o3 + j2.len() as int;
    let o5 = o4 + 9;
    let ms = c.mode.spec_str();
    let o6 = o5 + ms.len() as int;
    let o7 = o6 + 11;
    let jr = json_result(c.output);
    let o8 = o7 + jr.len() as int;
    assert(p0.len() == 41);
    assert(sv.subrange(0, sv.len() as int) =~= sv);
    assert(sv =~= p0 + (j1 + (",\"input2\":"@ + (j2 + (",\"mode\":\""@ + (ms + ("\",\"output\":"@
        + (jr + "}"@))))))));
    lemma_peel(sv, 0, p0, j1 + (",\"input2\":"@ + (j2 + (",\"mode\":\""@ + (ms + ("\",\"output\":"@
        + (jr + "}"@)))))));
    assert(sv[19] == p0[19]);
    lemma_peel(sv, 41, j1, ",\"input2\":"@ + (j2 + (",\"mode\":\""@ + (ms + ("\",\"output\":"@ + (jr
        + "}"@))))));
    lemma_peel(sv, o2, ",\"input2\":"@, j2 + (",\"mode\":\""@ + (ms + ("\",\"output\":"@ + (jr
        + "}"@)))));
    lemma_peel(sv, o3, j2, ",\"mode\":\""@ + (ms + ("\",\"output\":"@ + (jr + "}"@))));
    lemma_peel(sv, o4, ",\"mode\":\""@, ms + ("\",\"output\":"@ + (jr + "}"@)));
    lemma_peel(sv, o5, ms, "\",\"output\":"@ + (jr + "}"@));
    lemma_peel(sv, o6, "\",\"output\":"@, jr + "}"@);
    lemma_peel(sv, o7, jr, "}"@);
    assert(json_result(c.output) == json_ingredient(IngredientV::Item(c.output->Item_0)));
}

/// Parses the body of a grist-cost recipe, after its type text.
#[verifier::rlimit(100)]
#[verifier::spinoff_prover]
fn parse_grist_body(s: &str, i1: usize) -> (r: Option<Recipe>)
    requires
        i1 == 30 <= s@.len(),
        s@.subrange(0, 30) == "{\"type\":\"minestuck:grist_cost\""@,
    ensures
        (r matches Some(rec) ==> s@ == recipe_json(rec@) && recipe_jsonable(rec@)),
        (forall|rv: RecipeV| recipe_jsonable(rv) && s@ == recipe_json(rv) ==> (r matches Some(rec)
            && rec@ == rv)),
{
    proof {
        reveal_strlit("{\"type\":\"minestuck:grist_cost\"");
        reveal_strlit("{\"type\":\"minestuck:combination\",\"input1\":");
        reveal_strlit(",\"priority\":");
        reveal_strlit(",\"ingredient\":");
        reveal_strlit(",\"grist_cost\":{");
        reveal_strlit(",\"input2\":");
        reveal_strlit(",\"mode\":\"");
        reveal_strlit("\",\"output\":");
        reveal_strlit("}");
        reveal_strlit("and");
        reveal_strlit("or");
    }
    let ghost sv = s@;
    let n = s.unicode_len();
    proof {
        assert forall|rv: RecipeV|
            recipe_jsonable(rv) && sv == recipe_json(rv) implies rv is GristCost by {
            if rv is Combination {
                let c = rv->Combination_0;
                lemma_comb_layout(sv, c);
                assert(sv.subrange(0, 30)[19] == 'g');
                assert(false);
            }
        }
    }

        proof {
            assert forall|rv: RecipeV|
                recipe_jsonable(rv) && sv == recipe_json(rv) implies rv is GristCost by {
                if rv is Combination {
                    let c = rv->Combination_0;
                    lemma_comb_layout(sv, c);
                    assert(sv.subrange(0, 30)[19] == 'g');
                    assert(false);
                }
            }
        }
        let pri = expect_lit(s, i1, ",\"priority\":");
        let (pr, i2): (Option<i32>, usize) = match pri {
            Some(a) => {
                let j0 = scan_number_end(s, a);
                match crate::numbers::parse_i32(s.substring_char(a, j0)) {
                    Some(v) => {
                        proof {
                            assert forall|rv: RecipeV|
                                recipe_jsonable(rv) && sv == recipe_json(rv) implies ({
                                &&& rv matches RecipeV::GristCost(g)
                                &&& g.priority == Some(v)
                                &&& j0 == 30 + json_priority(g.priority).len()
                                &&& sv.subrange(30, j0 as int) == json_priority(g.priority)
                            }) by {
                                let g = rv->GristCost_0;
                                lemma_grist_layout(sv, g);
                                if g.priority is None {
                                    assert(sv.subrange(30, 42)[2] == 'p');
                                    assert(false);
                                }
                                let p = g.priority->0;
                                lemma_number_scan_align(sv, 42, p, ",\"ingredient\":"@
                                    + (json_ingredient(g.ingredient) + (",\"grist_cost\":{"@
                                    + (json_grist_entries(g.grist_cost) + "}}"@))), j0 as int);
                                assert(sv.subrange(a as int, j0 as int) == dec_int(p as int));
                                assert(sv.subrange(30, j0 as int) =~= sv.subrange(30, 42)
                                    + sv.subrange(42, j0 as int));
                            }
                        }
                        (Some(v), j0)
                    },
                    None => {
                        proof {
                            assert forall|rv: RecipeV|
                                !(recipe_jsonable(rv) && sv == recipe_json(rv)) by {
                                if recipe_jsonable(rv) && sv == recipe_json(rv) {
                                    let g = rv->GristCost_0;
                                    lemma_grist_layout(sv, g);
                                    if g.priority is None {
                                        assert(sv.subrange(30, 42)[2] == 'p');
                                        assert(false);
                                    }
                                    let p = g.priority->0;
                                    lemma_number_scan_align(sv, 42, p, ",\"ingredient\":"@
                                        + (json_ingredient(g.ingredient) + (",\"grist_cost\":{"@
                                        + (json_grist_entries(g.grist_cost) + "}}"@))), j0 as int);
                                    assert(sv.subrange(a as int, j0 as int) == dec_int(p as int));
                                    assert(false);
                                }
                            }
                        }
                        return None;
                    },
                }
            },
            None => {
                proof {
                    assert forall|rv: RecipeV|
                        recipe_jsonable(rv) && sv == recipe_json(rv) implies ({
                        &&& rv matches RecipeV::GristCost(g)
                        &&& g.priority is None
                        &&& i1 == 30 + json_priority(g.priority).len()
                        &&& sv.subrange(30, i1 as int) == json_priority(g.priority)
                    }) by {
                        let g = rv->GristCost_0;
                        lemma_grist_layout(sv, g);
                        if g.priority is Some {
                            assert(false);
                        }
                        assert(sv.subrange(30, 30) =~= json_priority(g.priority));
                    }
                }
                (None, i1)
            },
        };
        let i3 = match expect_lit(s, i2, ",\"ingredient\":") {
            Some(x) => x,
            None => {
                proof {
                    assert forall|rv: RecipeV|
                        !(recipe_jsonable(rv) && sv == recipe_json(rv)) by {
                        if recipe_jsonable(rv) && sv == recipe_json(rv) {
                            let g = rv->GristCost_0;
                            lemma_grist_layout(sv, g);
                            assert(false);
                        }
                    }
                }
                return None;
            },
        };
        let (ing, i4) = match parse_ingredient(s, i3) {
            Some(p) => p,
            None => {
                proof {
                    assert forall|rv: RecipeV|
                        !(recipe_jsonable(rv) && sv == recipe_json(rv)) by {
                        if recipe_jsonable(rv) && sv == recipe_json(rv) {
                            let g = rv->GristCost_0;
                            lemma_grist_layout(sv, g);
                            assert(false);
                        }
                    }
                }
                return None;
            },
        };
        let i5 = match expect_lit(s, i4, ",\"grist_cost\":{") {
            Some(x) => x,
            None => {
                proof {
                    assert forall|rv: RecipeV|
                        !(recipe_jsonable(rv) && sv == recipe_json(rv)) by {
                        if recipe_jsonable(rv) && sv == recipe_json(rv) {
                            let g = rv->GristCost_0;
                            lemma_grist_layout(sv, g);
                            assert(ing@ == g.ingredient);
                            assert(false);
                        }
                    }
                }
                return None;
            },
        };
        let (gm, i6) = match parse_grist_tail(s, i5) {
            Some(p) => p,
            None => {
                proof {
                    assert forall|rv: RecipeV|
                        !(recipe_jsonable(rv) && sv == recipe_json(rv)) by {
                        if recipe_jsonable(rv) && sv == recipe_json(rv) {
                            let g = rv->GristCost_0;
                            lemma_grist_layout(sv, g);
                            assert(ing@ == g.ingredient);
                            assert(false);
                        }
                    }
                }
                return None;
            },
        };
        if i6 != n {
            proof {
                assert forall|rv: RecipeV| !(recipe_jsonable(rv) && sv == recipe_json(rv)) by {
                    if recipe_jsonable(rv) && sv == recipe_json(rv) {
                        let g = rv->GristCost_0;
                        lemma_grist_layout(sv, g);
                        assert(ing@ == g.ingredient);
                        assert(gm@ == g.grist_cost);
                        assert(false);
                    }
                }
            }
            return None;
        }
        let rec = Recipe::GristCost(crate::recipe::GristCostRecipe {
            priority: pr,
            ingredient: ing,
            grist_cost: gm,
        });
        proof {
            assert(sv =~= sv.subrange(0, 30) + sv.subrange(30, i2 as int) + sv.subrange(
                i2 as int,
                i3 as int,
            ) + sv.subrange(i3 as int, i4 as int) + sv.subrange(i4 as int, i5 as int)
                + sv.subrange(i5 as int, i6 as int));
            assert(sv =~= recipe_json(rec@));
            assert forall|rv: RecipeV|
                recipe_jsonable(rv) && sv == recipe_json(rv) implies rec@ == rv by {
                let g = rv->GristCost_0;
                lemma_grist_layout(sv, g);
                assert(ing@ == g.ingredient);
                assert(gm@ == g.grist_cost);
                assert(pr == g.priority);
            }
        }
        Some(rec)
}

/// Parses the body of a combination recipe, after its type text.
#[verifier::rlimit(100)]
#[verifier::spinoff_prover]
fn parse_comb_body(s: &str, i1: usize) -> (r: Option<Recipe>)
    requires
        i1 == 41 <= s@.len(),
        s@.subrange(0, 41) == "{\"type\":\"minestuck:combination\",\"input1\":"@,
    ensures
        (r matches Some(rec) ==> s@ == recipe_json(rec@) && recipe_jsonable(rec@)),
        (forall|rv: RecipeV| recipe_jsonable(rv) && s@ == recipe_json(rv) ==> (r matches Some(rec)
            && rec@ == rv)),
{
    proof {
        reveal_strlit("{\"type\":\"minestuck:grist_cost\"");
        reveal_strlit("{\"type\":\"minestuck:combination\",\"input1\":");
        reveal_strlit(",\"priority\":");
        reveal_strlit(",\"ingredient\":");
        reveal_strlit(",\"grist_cost\":{");
        reveal_strlit(",\"input2\":");
        reveal_strlit(",\"mode\":\"");
        reveal_strlit("\",\"output\":");
        reveal_strlit("}");
        reveal_strlit("and");
        reveal_strlit("or");
    }
    let ghost sv = s@;
    let n = s.unicode_len();
    proof {
        assert forall|rv: RecipeV|
            recipe_jsonable(rv) && sv == recipe_json(rv) implies rv is Combination by {
            if rv is GristCost {
                let g = rv->GristCost_0;
                lemma_grist_layout(sv, g);
                assert(sv.subrange(0, 41)[19] == 'c');
                assert(false);
            }
        }
    }

        proof {
            assert forall|rv: RecipeV|
                recipe_jsonable(rv) && sv == recipe_json(rv) implies rv is Combination by {
                if rv is GristCost {
                    let g = rv->GristCost_0;
                    lemma_grist_layout(sv, g);
                    assert(sv.subrange(0, 41)[19] == 'c');
                    assert(false);
                }
            }
        }
        let (in1, i2) = match parse_ingredient(s, i1) {
            Some(p) => p,
            None => {
                proof {
                    assert forall|rv: RecipeV|
                        !(recipe_jsonable(rv) && sv == recipe_json(rv)) by {
                        if recipe_jsonable(rv) && sv == recipe_json(rv) {
                            let c = rv->Combination_0;
                            lemma_comb_layout(sv, c);
                            assert(false);
                        }
                    }
                }
                return None;
            },
        };
        let i3 = match expect_lit(s, i2, ",\"input2\":") {
            Some(x) => x,
            None => {
                proof {
                    assert forall|rv: RecipeV|
                        !(recipe_jsonable(rv) && sv == recipe_json(rv)) by {
                        if recipe_jsonable(rv) && sv == recipe_json(rv) {
                            let c = rv->Combination_0;
                            lemma_comb_layout(sv, c);
                            assert(in1@ == c.input1);
                            assert(false);
                        }
                    }
                }
                return None;
            },
        };
        let (in2, i4) = match parse_ingredient(s, i3) {
            Some(p) => p,
            None => {
                proof {
                    assert forall|rv: RecipeV|
                        !(recipe_jsonable(rv) && sv == recipe_json(rv)) by {
                        if recipe_jsonable(rv) && sv == recipe_json(rv) {
                            let c = rv->Combination_0;
                            lemma_comb_layout(sv, c);
                            assert(in1@ == c.input1);
                            assert(false);
                        }
                    }
                }
                return None;
            },
        };
        proof {
            assert forall|rv: RecipeV| recipe_jsonable(rv) && sv == recipe_json(rv) implies ({
                let c = rv->Combination_0;
                &&& rv is Combination
                &&& c.input1 == in1@
                &&& c.input2 == in2@
                &&& sv.subrange(i4 as int, sv.len() as int) == ",\"mode\":\""@ + (c.mode.spec_str()
                    + ("\",\"output\":"@ + (json_result(c.output) + "}"@)))
            }) by {
                let c = rv->Combination_0;
                lemma_comb_layout(sv, c);
                assert(in1@ == c.input1);
                assert(in2@ == c.input2);
                let j1 = json_ingredient(c.input1);
                let o2 = 41 + j1.len() as int;
                let o3 = o2 + 10;
                let j2 = json_ingredient(c.input2);
                let o4 = o3 + j2.len() as int;
                let o5 = o4 + 9;
                let ms = c.mode.spec_str();
                let o6 = o5 + ms.len() as int;
                let o7 = o6 + 11;
                let jr = json_result(c.output);
                let o8 = o7 + jr.len() as int;
                assert(i4 == o4);
                assert(sv.subrange(o4, sv.len() as int) =~= sv.subrange(o4, o5) + (sv.subrange(
                    o5,
                    o6,
                ) + (sv.subrange(o6, o7) + (sv.subrange(o7, o8) + sv.subrange(
                    o8,
                    sv.len() as int,
                )))));
                assert(sv.subrange(o7, o8) == jr) by {
                    assert(ing_at(sv, o7, IngredientV::Item(c.output->Item_0), "}"@));
                    lemma_peel(sv, o7, json_ingredient(IngredientV::Item(c.output->Item_0)),
                        "}"@);
                }
            }
        }
        proof {
            assert(sv.subrange(0, i4 as int) =~= sv.subrange(0, 41) + sv.subrange(41, i2 as int)
                + sv.subrange(i2 as int, i3 as int) + sv.subrange(i3 as int, i4 as int));
        }
        parse_comb_tail(s, i4, in1, in2)
}

/// Parses the mode, output and closing of a combination recipe, given the
/// two inputs already read.
#[verifier::rlimit(100)]
#[verifier::spinoff_prover]
fn parse_comb_tail(s: &str, i4: usize, in1: Ingredient, in2: Ingredient) -> (r: Option<Recipe>)
    requires
        41 <= i4 <= s@.len(),
        ing_quote_free(in1@),
        ing_quote_free(in2@),
        s@.subrange(0, i4 as int) == "{\"type\":\"minestuck:combination\",\"input1\":"@
            + json_ingredient(in1@) + ",\"input2\":"@ + json_ingredient(in2@),
        forall|rv: RecipeV|
            recipe_jsonable(rv) && s@ == recipe_json(rv) ==> ({
                let c = rv->Combination_0;
                &&& rv is Combination
                &&& c.input1 == in1@
                &&& c.input2 == in2@
                &&& s@.subrange(i4 as int, s@.len() as int) == ",\"mode\":\""@
                    + (c.mode.spec_str() + ("\",\"output\":"@ + (json_result(c.output)
                    + "}"@)))
            }),
    ensures
        (r matches Some(rec) ==> s@ == recipe_json(rec@) && recipe_jsonable(rec@)),
        (forall|rv: RecipeV| recipe_jsonable(rv) && s@ == recipe_json(rv) ==> (r matches Some(rec)
            && rec@ == rv)),
{
    proof {
        reveal_strlit("{\"type\":\"minestuck:combination\",\"input1\":");
        reveal_strlit(",\"input2\":");
        reveal_strlit(",\"mode\":\"");
        reveal_strlit("\",\"output\":");
        reveal_strlit("}");
        reveal_strlit("and");
        reveal_strlit("or");
    }
    let ghost sv = s@;
    let n = s.unicode_len();
        let i5 = match expect_lit(s, i4, ",\"mode\":\"") {
            Some(x) => x,
            None => {
                proof {
                    assert forall|rv: RecipeV|
                        !(recipe_jsonable(rv) && sv == recipe_json(rv)) by {
                        if recipe_jsonable(rv) && sv == recipe_json(rv) {
                            let c = rv->Combination_0;
                            lemma_peel(sv, i4 as int, ",\"mode\":\""@, c.mode.spec_str()
                                + ("\",\"output\":"@ + (json_result(c.output) + "}"@)));
                            assert(false);
                        }
                    }
                }
                return None;
            },
        };
        let and_r = expect_lit(s, i5, "and");
        let (mode, i6): (crate::recipe::CombinationMode, usize) = match and_r {
            Some(x) => (crate::recipe::CombinationMode::And, x),
            None => match expect_lit(s, i5, "or") {
                Some(x) => (crate::recipe::CombinationMode::Or, x),
                None => {
                    proof {
                        assert forall|rv: RecipeV|
                            !(recipe_jsonable(rv) && sv == recipe_json(rv)) by {
                            if recipe_jsonable(rv) && sv == recipe_json(rv) {
                                let c = rv->Combination_0;
                                let ms = c.mode.spec_str();
                                lemma_peel(sv, i4 as int, ",\"mode\":\""@, ms + ("\",\"output\":"@
                                    + (json_result(c.output) + "}"@)));
                                assert(sv.subrange(i5 as int, sv.len() as int) == ms
                                    + ("\",\"output\":"@ + (json_result(c.output) + "}"@)));
                                lemma_peel(sv, i5 as int, ms, "\",\"output\":"@ + (json_result(
                                    c.output,
                                ) + "}"@));
                                assert(sv.subrange(i5 as int, i5 + ms.len()) == ms);
                                assert(false);
                            }
                        }
                    }
                    return None;
                },
            },
        };
        proof {
            assert forall|rv: RecipeV| recipe_jsonable(rv) && sv == recipe_json(rv) implies ({
                let c = rv->Combination_0;
                &&& c.mode == mode
                &&& i6 == i5 + c.mode.spec_str().len()
                &&& sv.subrange(i6 as int, sv.len() as int) == "\",\"output\":"@ + (json_result(
                    c.output,
                ) + "}"@)
            }) by {
                let c = rv->Combination_0;
                let ms = c.mode.spec_str();
                lemma_peel(sv, i4 as int, ",\"mode\":\""@, ms + ("\",\"output\":"@ + (json_result(
                    c.output,
                ) + "}"@)));
                lemma_peel(sv, i5 as int, ms, "\",\"output\":"@ + (json_result(c.output) + "}"@));
                assert(sv.subrange(i5 as int, i5 + ms.len()) == ms);
                match c.mode {
                    crate::recipe::CombinationMode::And => {
                        if and_r is None {
                            assert(sv.subrange(i5 as int, i5 + 3) == "and"@);
                            assert(false);
                        }
                    },
                    crate::recipe::CombinationMode::Or => {
                        if and_r is Some {
                            assert(sv[i5 as int] == 'o') by {
                                assert(sv.subrange(i5 as int, i5 + ms.len())[0] == 'o');
                            }
                            assert(sv.subrange(i5 as int, i5 + 3)[0] == 'a');
                            assert(false);
                        }
                        assert(sv.subrange(i5 as int, i5 + 2) == "or"@);
                    },
                }
            }
        }
        let i7 = match expect_lit(s, i6, "\",\"output\":") {
            Some(x) => x,
            None => {
                proof {
                    assert forall|rv: RecipeV|
                        !(recipe_jsonable(rv) && sv == recipe_json(rv)) by {
                        if recipe_jsonable(rv) && sv == recipe_json(rv) {
                            let c = rv->Combination_0;
                            lemma_peel(sv, i6 as int, "\",\"output\":"@, json_result(c.output)
                                + "}"@);
                            assert(false);
                        }
                    }
                }
                return None;
            },
        };
        proof {
            assert forall|rv: RecipeV| recipe_jsonable(rv) && sv == recipe_json(rv) implies ({
                let c = rv->Combination_0;
                &&& c.output matches ResultItemV::Item(o) && ing_at(sv, i7 as int,
                    IngredientV::Item(o), "}"@)
            }) by {
                let c = rv->Combination_0;
                lemma_peel(sv, i6 as int, "\",\"output\":"@, json_result(c.output) + "}"@);
                assert(json_result(c.output) == json_ingredient(IngredientV::Item(
                    c.output->Item_0,
                )));
                assert(sv.subrange(i7 as int, sv.len() as int) =~= json_ingredient(
                    IngredientV::Item(c.output->Item_0),
                ) + "}"@);
            }
        }
        let (out_ing, i8) = match parse_ingredient(s, i7) {
            Some(p) => p,
            None => {
                proof {
                    assert forall|rv: RecipeV|
                        !(recipe_jsonable(rv) && sv == recipe_json(rv)) by {}
                }
                return None;
            },
        };
        let out = match out_ing {
            Ingredient::Item(id) => crate::recipe::ResultItem::Item(id),
            Ingredient::Tag(_) => {
                proof {
                    assert forall|rv: RecipeV|
                        !(recipe_jsonable(rv) && sv == recipe_json(rv)) by {}
                }
                return None;
            },
        };
        let i9 = match expect_lit(s, i8, "}") {
            Some(x) => x,
            None => {
                proof {
                    assert forall|rv: RecipeV|
                        !(recipe_jsonable(rv) && sv == recipe_json(rv)) by {
                        if recipe_jsonable(rv) && sv == recipe_json(rv) {
                            let c = rv->Combination_0;
                            lemma_peel(sv, i7 as int, json_ingredient(IngredientV::Item(
                                c.output->Item_0,
                            )), "}"@);
                            assert(false);
                        }
                    }
                }
                return None;
            },
        };
        if i9 != n {
            proof {
                assert forall|rv: RecipeV| !(recipe_jsonable(rv) && sv == recipe_json(rv)) by {
                    if recipe_jsonable(rv) && sv == recipe_json(rv) {
                        let c = rv->Combination_0;
                        lemma_peel(sv, i7 as int, json_ingredient(IngredientV::Item(
                            c.output->Item_0,
                        )), "}"@);
                        assert(false);
                    }
                }
            }
            return None;
        }
        let rec = Recipe::Combination(crate::recipe::CombinationRecipe {
            input1: in1,
            input2: in2,
            mode,
            output: out,
        });
        proof {
            assert(json_result(out@) == json_ingredient(IngredientV::Item(out@->Item_0)));
            assert(sv =~= sv.subrange(0, i4 as int) + sv.subrange(i4 as int, i5 as int)
                + sv.subrange(i5 as int, i6 as int) + sv.subrange(i6 as int, i7 as int)
                + sv.subrange(i7 as int, i8 as int) + sv.subrange(i8 as int, i9 as int));
            assert(sv.subrange(i5 as int, i6 as int) == mode.spec_str());
            assert(sv =~= recipe_json(rec@));
            assert forall|rv: RecipeV|
                recipe_jsonable(rv) && sv == recipe_json(rv) implies rec@ == rv by {
                let c = rv->Combination_0;
                assert(in1@ == c.input1);
                assert(in2@ == c.input2);
                assert(mode == c.mode);
                assert(out@ == c.output);
            }
        }
        Some(rec)
}


/// Parses the canonical JSON text of a recipe, and nothing else: the whole
/// string must be exactly the canonical rendering of one recipe.
pub fn recipe_from_json(s: &str) -> (r: Option<Recipe>)
    ensures
        (r matches Some(rec) ==> s@ == recipe_json(rec@) && recipe_jsonable(rec@)),
        (forall|rv: RecipeV| recipe_jsonable(rv) && s@ == recipe_json(rv) ==> (r matches Some(rec)
            && rec@ == rv)),
{
    proof {
        reveal_strlit("{\"type\":\"minestuck:grist_cost\"");
        reveal_strlit("{\"type\":\"minestuck:combination\",\"input1\":");
    }
    let ghost sv = s@;
    if let Some(i1) = expect_lit(s, 0, "{\"type\":\"minestuck:grist_cost\"") {
        parse_grist_body(s, i1)
    } else if let Some(i1) = expect_lit(s, 0, "{\"type\":\"minestuck:combination\",\"input1\":") {
        parse_comb_body(s, i1)
    } else {
        proof {
            assert forall|rv: RecipeV| !(recipe_jsonable(rv) && sv == recipe_json(rv)) by {
                if recipe_jsonable(rv) && sv == recipe_json(rv) {
                    match rv {
                        RecipeV::GristCost(g) => {
                            lemma_grist_layout(sv, g);
                            assert(false);
                        },
                        RecipeV::Combination(c) => {
                            lemma_comb_layout(sv, c);
                            assert(false);
                        },
                    }
                }
            }
        }
        None
    }
}

/// Two canonical decimal texts at one position, each followed by text that
/// starts with neither a digit nor a minus sign, agree on the value and on
/// what follows.
pub proof fn lemma_num_prefix_align(
    sv: Seq<char>,
    c: int,
    v1: i32,
    r1: Seq<char>,
    v2: i32,
    r2: Seq<char>,
)
    requires
        0 <= c <= sv.len(),
        sv.subrange(c, sv.len() as int) == dec_int(v1 as int) + r1,
        sv.subrange(c, sv.len() as int) == dec_int(v2 as int) + r2,
        r1.len() > 0,
        !is_digit(r1[0]),
        r1[0] != '-',
        r2.len() > 0,
        !is_digit(r2[0]),
        r2[0] != '-',
    ensures
        v1 == v2,
        r1 == r2,
{
    lemma_dec_stats(v1 as int);
    lemma_dec_stats(v2 as int);
    let d1 = dec_int(v1 as int);
    let d2 = dec_int(v2 as int);
    lemma_peel(sv, c, d1, r1);
    lemma_peel(sv, c, d2, r2);
    let sign1: int = if v1 < 0 {
        1
    } else {
        0
    };
    let sign2: int = if v2 < 0 {
        1
    } else {
        0
    };
    assert(sv[c] == d1[0] && sv[c] == d2[0]);
    assert(sign1 == sign2);
    let g1 = crate::numbers::dec_digits(crate::numbers::dec_mag(v1 as int));
    let g2 = crate::numbers::dec_digits(crate::numbers::dec_mag(v2 as int));
    assert(forall|x: int| 0 <= x < g1.len() ==> d1[sign1 + x] == g1[x]);
    assert(forall|x: int| 0 <= x < g2.len() ==> d2[sign2 + x] == g2[x]);
    if d1.len() < d2.len() {
        assert(sv[c + d1.len()] == r1[0]) by {
            assert(sv.subrange(c + d1.len(), sv.len() as int)[0] == r1[0]);
        }
        assert(sv[c + d1.len()] == d2[d1.len() as int]);
        assert(is_digit(d2[d1.len() as int])) by {
            assert(d2[d1.len() as int] == g2[d1.len() - sign2]);
        }
        assert(false);
    }
    if d2.len() < d1.len() {
        assert(sv[c + d2.len()] == r2[0]) by {
            assert(sv.subrange(c + d2.len(), sv.len() as int)[0] == r2[0]);
        }
        assert(sv[c + d2.len()] == d1[d2.len() as int]);
        assert(is_digit(d1[d2.len() as int])) by {
            assert(d1[d2.len() as int] == g1[d2.len() - sign1]);
        }
        assert(false);
    }
    assert(d1 =~= d2);
    assert(g1 =~= g2);
    crate::numbers::lemma_val_of_dec_digits(crate::numbers::dec_mag(v1 as int));
    crate::numbers::lemma_val_of_dec_digits(crate::numbers::dec_mag(v2 as int));
    assert(crate::numbers::dec_mag(v1 as int) == crate::numbers::dec_mag(v2 as int));
    assert(r1 =~= r2) by {
        assert(sv.subrange(c + d1.len(), sv.len() as int) == r1);
        assert(sv.subrange(c + d2.len(), sv.len() as int) == r2);
    }
}

/// Two canonical ingredient objects at one position agree on the
/// ingredient and on what follows.
pub proof fn lemma_ing_prefix_align(
    sv: Seq<char>,
    o: int,
    a: IngredientV,
    ta: Seq<char>,
    b: IngredientV,
    tb: Seq<char>,
)
    requires
        0 <= o <= sv.len(),
        ing_at(sv, o, a, ta),
        ing_at(sv, o, b, tb),
    ensures
        a == b,
        ta == tb,
{
    reveal_strlit("{\"item\":\"");
    reveal_strlit("{\"tag\":\"");
    match (a, b) {
        (IngredientV::Item(ida), IngredientV::Item(idb)) => {
            lemma_item_layout(sv, o, ida, ta);
            lemma_item_layout(sv, o, idb, tb);
            if ida.len() < idb.len() {
                assert(sv[o + 9 + ida.len()] == idb[ida.len() as int]);
                assert(false);
            }
            if idb.len() < ida.len() {
                assert(sv[o + 9 + idb.len()] == ida[idb.len() as int]);
                assert(false);
            }
            assert(ida =~= idb) by {
                assert(forall|x: int| 0 <= x < ida.len() ==> ida[x] == sv[o + 9 + x]);
                assert(forall|x: int| 0 <= x < idb.len() ==> idb[x] == sv[o + 9 + x]);
            }
            assert(ta =~= tb) by {
                assert(sv.subrange(o + 9 + ida.len() + 2, sv.len() as int) == ta);
                assert(sv.subrange(o + 9 + idb.len() + 2, sv.len() as int) == tb);
            }
        },
        (IngredientV::Tag(ida), IngredientV::Tag(idb)) => {
            lemma_tag_layout(sv, o, ida, ta);
            lemma_tag_layout(sv, o, idb, tb);
            if ida.len() < idb.len() {
                assert(sv[o + 8 + ida.len()] == idb[ida.len() as int]);
                assert(false);
            }
            if idb.len() < ida.len() {
                assert(sv[o + 8 + idb.len()] == ida[idb.len() as int]);
                assert(false);
            }
            assert(ida =~= idb) by {
                assert(forall|x: int| 0 <= x < ida.len() ==> ida[x] == sv[o + 8 + x]);
                assert(forall|x: int| 0 <= x < idb.len() ==> idb[x] == sv[o + 8 + x]);
            }
            assert(ta =~= tb) by {
                assert(sv.subrange(o + 8 + ida.len() + 2, sv.len() as int) == ta);
                assert(sv.subrange(o + 8 + idb.len() + 2, sv.len() as int) == tb);
            }
        },
        (IngredientV::Item(ida), IngredientV::Tag(idb)) => {
            lemma_item_layout(sv, o, ida, ta);
            lemma_tag_layout(sv, o, idb, tb);
            assert(sv.subrange(o, o + 9)[2] == 'i');
            assert(sv.subrange(o, o + 8)[2] == 't');
            assert(false);
        },
        (IngredientV::Tag(ida), IngredientV::Item(idb)) => {
            lemma_tag_layout(sv, o, ida, ta);
            lemma_item_layout(sv, o, idb, tb);
            assert(sv.subrange(o, o + 9)[2] == 'i');
            assert(sv.subrange(o, o + 8)[2] == 't');
            assert(false);
        },
    }
}

/// Two canonical entry lists at one position agree on the entries and on
/// what follows.
pub proof fn lemma_entries_align(
    sv: Seq<char>,
    o: int,
    g1: Seq<(Seq<char>, i32)>,
    t1: Seq<char>,
    g2: Seq<(Seq<char>, i32)>,
    t2: Seq<char>,
)
    requires
        0 <= o <= sv.len(),
        gs_at(sv, o, g1, t1),
        gs_at(sv, o, g2, t2),
    ensures
        g1 == g2,
        t1 == t2,
    decreases g1.len(),
{
    reveal_strlit("}}");
    if g1.len() == 0 && g2.len() == 0 {
        lemma_peel(sv, o, "}}"@, t1);
        lemma_peel(sv, o, "}}"@, t2);
        assert(g1 =~= g2);
        assert(t1 =~= t2) by {
            assert(sv.subrange(o + 2, sv.len() as int) == t1);
            assert(sv.subrange(o + 2, sv.len() as int) == t2);
        }
        return;
    }
    if g1.len() == 0 {
        lemma_peel(sv, o, "}}"@, t1);
        assert(sv[o] == '}') by {
            assert(sv.subrange(o, o + 2)[0] == '}');
        }
        lemma_gs_layout(sv, o, g2, t2);
        assert(false);
    }
    if g2.len() == 0 {
        lemma_peel(sv, o, "}}"@, t2);
        assert(sv[o] == '}') by {
            assert(sv.subrange(o, o + 2)[0] == '}');
        }
        lemma_gs_layout(sv, o, g1, t1);
        assert(false);
    }
    lemma_gs_layout(sv, o, g1, t1);
    lemma_gs_layout(sv, o, g2, t2);
    let k1 = g1[0].0;
    let k2 = g2[0].0;
    if k1.len() < k2.len() {
        assert(sv[o + 1 + k1.len()] == k2[k1.len() as int]);
        assert(quote_free(k2));
        assert(false);
    }
    if k2.len() < k1.len() {
        assert(sv[o + 1 + k2.len()] == k1[k2.len() as int]);
        assert(false);
    }
    assert(k1 =~= k2) by {
        assert(forall|x: int| 0 <= x < k1.len() ==> k1[x] == sv[o + 1 + x]);
        assert(forall|x: int| 0 <= x < k2.len() ==> k2[x] == sv[o + 1 + x]);
    }
    let c0 = o + 3 + k1.len();
    lemma_num_prefix_align(sv, c0, g1[0].1, gs_rest(g1, t1), g2[0].1, gs_rest(g2, t2));
    let d = dec_int(g1[0].1 as int);
    if g1.len() == 1 && g2.len() == 1 {
        assert(g1 =~= g2);
        assert(t1 =~= t2) by {
            assert(gs_rest(g1, t1) == gs_rest(g2, t2));
            assert(("}}"@ + t1) =~= ("}}"@ + t2));
            assert forall|x: int| 0 <= x < t1.len() implies t1[x] == t2[x] by {
                assert(("}}"@ + t1)[2 + x] == t1[x]);
            }
        }
        return;
    }
    if g1.len() == 1 {
        assert(gs_rest(g1, t1)[0] == '}');
        assert(gs_rest(g2, t2)[0] == ',');
        assert(false);
    }
    if g2.len() == 1 {
        assert(gs_rest(g1, t1)[0] == '}');
        assert(false);
    }
    lemma_gs_tail_wf(g1);
    lemma_gs_tail_wf(g2);
    assert(sv.subrange(o, sv.len() as int) =~= json_grist_entries(g1) + ("}}"@ + t1));
    lemma_peel(sv, o, json_grist_entries(g1), "}}"@ + t1);
    assert(c0 + d.len() + 1 <= sv.len());
    assert(gs_at(sv, c0 + d.len() + 1, g1.drop_first(), t1));
    assert(gs_at(sv, c0 + d.len() + 1, g2.drop_first(), t2)) by {
        assert(dec_int(g2[0].1 as int) == d);
    }
    lemma_entries_align(sv, c0 + d.len() + 1, g1.drop_first(), t1, g2.drop_first(), t2);
    assert(g1 =~= g2) by {
        assert(g1[0] == g2[0]);
        assert forall|x: int| 0 <= x < g1.len() implies g1[x] == g2[x] by {
            if x > 0 {
                assert(g1.drop_first()[x - 1] == g2.drop_first()[x - 1]);
            }
        }
    }
}

/// Canonical JSON text determines the recipe: two renderable recipes with
/// the same text are the same recipe.
pub proof fn lemma_recipe_json_injective(a: RecipeV, b: RecipeV)
    requires
        recipe_jsonable(a),
        recipe_jsonable(b),
        recipe_json(a) == recipe_json(b),
    ensures
        a == b,
{
    let sv = recipe_json(a);
    match (a, b) {
        (RecipeV::GristCost(ga), RecipeV::GristCost(gb)) => {
            reveal_strlit(",\"priority\":");
            reveal_strlit(",\"ingredient\":");
            lemma_grist_layout(sv, ga);
            lemma_grist_layout(sv, gb);
            match (ga.priority, gb.priority) {
                (Some(pa), Some(pb)) => {
                    let ja = json_ingredient(ga.ingredient);
                    let jb = json_ingredient(gb.ingredient);
                    let ra = ",\"ingredient\":"@ + (ja + (",\"grist_cost\":{"@
                        + (json_grist_entries(ga.grist_cost) + "}}"@)));
                    let rb = ",\"ingredient\":"@ + (jb + (",\"grist_cost\":{"@
                        + (json_grist_entries(gb.grist_cost) + "}}"@)));
                    lemma_num_prefix_align(sv, 42, pa, ra, pb, rb);
                },
                (Some(pa), None) => {
                    assert(sv[32] == 'p' && sv[32] == 'i');
                    assert(false);
                },
                (None, Some(pb)) => {
                    assert(sv[32] == 'p' && sv[32] == 'i');
                    assert(false);
                },
                (None, None) => {},
            }
            let o2 = 30 + json_priority(ga.priority).len() as int + 14;
            assert(o2 == 30 + json_priority(gb.priority).len() as int + 14);
            lemma_ing_prefix_align(sv, o2, ga.ingredient, ",\"grist_cost\":{"@
                + (json_grist_entries(ga.grist_cost) + "}}"@), gb.ingredient, ",\"grist_cost\":{"@
                + (json_grist_entries(gb.grist_cost) + "}}"@));
            let o3 = o2 + json_ingredient(ga.ingredient).len() as int;
            let o4 = o3 + 15;
            lemma_entries_align(sv, o4, ga.grist_cost, Seq::<char>::empty(), gb.grist_cost,
                Seq::<char>::empty());
            assert(ga == gb);
        },
        (RecipeV::Combination(ca), RecipeV::Combination(cb)) => {
            lemma_comb_layout(sv, ca);
            lemma_comb_layout(sv, cb);
            let j2a = json_ingredient(ca.input2);
            let j2b = json_ingredient(cb.input2);
            let msa = ca.mode.spec_str();
            let msb = cb.mode.spec_str();
            let jra = json_result(ca.output);
            let jrb = json_result(cb.output);
            lemma_ing_prefix_align(sv, 41, ca.input1, ",\"input2\":"@ + (j2a + (",\"mode\":\""@
                + (msa + ("\",\"output\":"@ + (jra + "}"@))))), cb.input1, ",\"input2\":"@ + (j2b
                + (",\"mode\":\""@ + (msb + ("\",\"output\":"@ + (jrb + "}"@))))));
            let o2 = 41 + json_ingredient(ca.input1).len() as int;
            let o3 = o2 + 10;
            lemma_ing_prefix_align(sv, o3, ca.input2, ",\"mode\":\""@ + (msa + ("\",\"output\":"@
                + (jra + "}"@))), cb.input2, ",\"mode\":\""@ + (msb + ("\",\"output\":"@ + (jrb
                + "}"@))));
            let o4 = o3 + j2a.len() as int;
            let o5 = o4 + 9;
            assert(ca.mode == cb.mode) by {
                reveal_strlit("and");
                reveal_strlit("or");
                if ca.mode != cb.mode {
                    assert(sv[o5] == msa[0]);
                    assert(sv[o5] == msb[0]);
                    assert(msa[0] != msb[0]);
                    assert(false);
                }
            }
            let o6 = o5 + msa.len() as int;
            let o7 = o6 + 11;
            assert(ca.output matches ResultItemV::Item(oa) && cb.output matches
                ResultItemV::Item(ob) && ing_at(sv, o7, IngredientV::Item(oa), "}"@) && ing_at(
                sv,
                o7,
                IngredientV::Item(ob),
                "}"@,
            ));
            lemma_ing_prefix_align(sv, o7, IngredientV::Item(ca.output->Item_0), "}"@,
                IngredientV::Item(cb.output->Item_0), "}"@);
            assert(ca.output == cb.output);
            assert(ca == cb);
        },
        (RecipeV::GristCost(ga), RecipeV::Combination(cb)) => {
            lemma_grist_layout(sv, ga);
            lemma_comb_layout(sv, cb);
            assert(false);
        },
        (RecipeV::Combination(ca), RecipeV::GristCost(gb)) => {
            lemma_comb_layout(sv, ca);
            lemma_grist_layout(sv, gb);
            assert(false);
        },
    }
}

} // verus!
