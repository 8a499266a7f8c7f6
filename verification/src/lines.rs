//! The text-line producers: one comma-separated line becomes a combination
//! recipe or a grist-cost recipe, or a reported reason why not.

use vstd::prelude::*;
use vstd::string::*;
use crate::ident::{grist_resource, spec_qualify};
use crate::numbers::{lenient_shape, lenient_val, parse_i32_lenient};
use crate::recipe::{
    unique_keys, CombinationMode, CombinationRecipe, CombinationRecipeV, GristCostRecipe,
    GristCostRecipeV, GristMap, Ingredient, IngredientV, ResultItem, ResultItemV,
};

verus! {

/// The whitespace that field trimming removes.
pub open spec fn is_space(c: char) -> bool {
    c == ' ' || c == '\t' || c == '\r' || c == '\n'
}

/// The string without its leading whitespace.
pub open spec fn trim_front(s: Seq<char>) -> Seq<char>
    decreases s.len(),
{
    if s.len() > 0 && is_space(s[0]) {
        trim_front(s.drop_first())
    } else {
        s
    }
}

/// The string without its trailing whitespace.
pub open spec fn trim_back(s: Seq<char>) -> Seq<char>
    decreases s.len(),
{
    if s.len() > 0 && is_space(s.last()) {
        trim_back(s.drop_last())
    } else {
        s
    }
}

/// The string without leading and trailing whitespace.
pub open spec fn spec_trim(s: Seq<char>) -> Seq<char> {
    trim_back(trim_front(s))
}

/// The first position at or after `i` holding `c`, or the length.
pub open spec fn char_pos(s: Seq<char>, i: int, c: char) -> int
    decreases s.len() - i when 0 <= i <= s.len()
{
    if i >= s.len() {
        s.len() as int
    } else if s[i] == c {
        i
    } else {
        char_pos(s, i + 1, c)
    }
}

/// The last position holding `:`, or `-1`.
pub open spec fn last_colon(s: Seq<char>) -> int
    decreases s.len(),
{
    if s.len() == 0 {
        -1
    } else if s.last() == ':' {
        s.len() - 1
    } else {
        last_colon(s.drop_last())
    }
}

/// The first position of `c` is between `i` and the end.
pub proof fn lemma_char_pos_bounds(s: Seq<char>, i: int, c: char)
    requires
        0 <= i <= s.len(),
    ensures
        i <= char_pos(s, i, c) <= s.len(),
    decreases s.len() - i,
{
    if i < s.len() && s[i] != c {
        lemma_char_pos_bounds(s, i + 1, c);
    }
}

/// The comma-separated fields of the line, from position `i` on.
pub open spec fn spec_fields(s: Seq<char>, i: int) -> Seq<Seq<char>>
    decreases s.len() - i when 0 <= i <= s.len() via spec_fields_dec
{
    let j = char_pos(s, i, ',');
    if j == s.len() {
        seq![s.subrange(i, j)]
    } else {
        seq![s.subrange(i, j)] + spec_fields(s, j + 1)
    }
}

#[via_fn]
proof fn spec_fields_dec(s: Seq<char>, i: int) {
    lemma_char_pos_bounds(s, i, ',');
}

fn is_space_char(c: char) -> (r: bool)
    ensures
        r == is_space(c),
{
    c == ' ' || c == '\t' || c == '\r' || c == '\n'
}

/// Copies the string without its leading and trailing whitespace.
#[verifier::loop_isolation(false)]
pub fn trim_str(s: &str) -> (r: String)
    ensures
        r@ == spec_trim(s@),
{
    let ghost sv = s@;
    let n = s.unicode_len();
    let mut a: usize = 0;
    proof {
        assert(sv.subrange(0, n as int) =~= sv);
    }
    while a < n && is_space_char(s.get_char(a))
        invariant
            a <= n,
            trim_front(sv) == trim_front(sv.subrange(a as int, n as int)),
        decreases n - a,
    {
        proof {
            assert(sv.subrange(a as int, n as int).drop_first() =~= sv.subrange(
                a as int + 1,
                n as int,
            ));
        }
        a = a + 1;
    }
    proof {
        assert(trim_front(sv) == sv.subrange(a as int, n as int));
    }
    let mut b: usize = n;
    while b > a && is_space_char(s.get_char(b - 1))
        invariant
            a <= b <= n,
            trim_back(sv.subrange(a as int, n as int)) == trim_back(
                sv.subrange(a as int, b as int),
            ),
        decreases b,
    {
        proof {
            assert(sv.subrange(a as int, b as int).drop_last() =~= sv.subrange(
                a as int,
                b as int - 1,
            ));
            assert(sv.subrange(a as int, b as int).last() == sv[b - 1]);
        }
        b = b - 1;
    }
    proof {
        assert(spec_trim(sv) == sv.subrange(a as int, b as int)) by {
            if b > a {
                assert(sv.subrange(a as int, b as int).last() == sv[b - 1]);
            }
        }
    }
    String::from_str(s.substring_char(a, b))
}

/// Finds the first `c` at or after `i`, or the end of the string.
#[verifier::loop_isolation(false)]
pub(crate) fn find_char_from(s: &str, i: usize, c: char) -> (j: usize)
    requires
        i <= s@.len(),
    ensures
        j == char_pos(s@, i as int, c),
        i <= j <= s@.len(),
        j < s@.len() ==> s@[j as int] == c,
        forall|x: int| i <= x < j ==> s@[x] != c,
    decreases s@.len() - i,
{
    let ghost sv = s@;
    let n = s.unicode_len();
    let mut j: usize = i;
    while j < n && s.get_char(j) != c
        invariant
            i <= j <= n,
            char_pos(sv, i as int, c) == char_pos(sv, j as int, c),
            forall|x: int| i <= x < j ==> sv[x] != c,
        decreases n - j,
    {
        j = j + 1;
    }
    j
}

/// Finds the last `:` in the string, if there is one.
#[verifier::loop_isolation(false)]
fn find_last_colon(s: &str) -> (r: Option<usize>)
    ensures
        match r {
            Some(x) => x as int == last_colon(s@) && x < s@.len() && s@[x as int] == ':',
            None => last_colon(s@) == -1,
        },
{
    let ghost sv = s@;
    let n = s.unicode_len();
    let mut b: usize = n;
    proof {
        assert(sv.subrange(0, n as int) =~= sv);
    }
    while b > 0
        invariant
            b <= n,
            last_colon(sv) == last_colon(sv.subrange(0, b as int)),
        decreases b,
    {
        proof {
            assert(sv.subrange(0, b as int).last() == sv[b - 1]);
            assert(sv.subrange(0, b as int).drop_last() =~= sv.subrange(0, b as int - 1));
        }
        if s.get_char(b - 1) == ':' {
            return Some(b - 1);
        }
        b = b - 1;
    }
    proof {
        assert(sv.subrange(0, 0) =~= Seq::<char>::empty());
    }
    None
}

/// Collects the comma-separated fields of the line, untrimmed.
#[verifier::loop_isolation(false)]
fn split_fields(s: &str) -> (r: Vec<String>)
    ensures
        r@.len() == spec_fields(s@, 0).len(),
        forall|k: int| 0 <= k < r@.len() ==> (#[trigger] r@[k])@ == spec_fields(s@, 0)[k],
        r@.len() >= 1,
{
    let ghost sv = s@;
    let ghost all = spec_fields(sv, 0);
    let n = s.unicode_len();
    let mut fields: Vec<String> = Vec::new();
    let mut p: usize = 0;
    let mut done = false;
    while !done
        invariant
            p <= n,
            !done ==> all =~= fields@.map_values(|f: String| f@) + spec_fields(sv, p as int),
            done ==> all =~= fields@.map_values(|f: String| f@),
            done ==> fields@.len() >= 1,
        decreases n - p + (if done {
            0int
        } else {
            1int
        }),
    {
        let j = find_char_from(s, p, ',');
        let f = String::from_str(s.substring_char(p, j));
        let ghost pre = fields@;
        fields.push(f);
        proof {
            assert(fields@.map_values(|f: String| f@) =~= pre.map_values(|f: String| f@)
                + seq![sv.subrange(p as int, j as int)]);
        }
        if j == n {
            done = true;
            proof {
                assert(spec_fields(sv, p as int) == seq![sv.subrange(p as int, j as int)]);
                assert(all =~= fields@.map_values(|f: String| f@));
            }
        } else {
            proof {
                assert(spec_fields(sv, p as int) == seq![sv.subrange(p as int, j as int)]
                    + spec_fields(sv, j as int + 1));
                assert(all =~= fields@.map_values(|f: String| f@) + spec_fields(
                    sv,
                    j as int + 1,
                ));
            }
            p = j + 1;
        }
    }
    proof {
        assert(forall|k: int|
            0 <= k < fields@.len() ==> (#[trigger] fields@[k])@ == fields@.map_values(
                |f: String| f@,
            )[k]);
    }
    fields
}

/// Spec-level outcome of one combination line.
pub enum CombinationLineV {
    Recipe(CombinationRecipeV),
    /// The line was empty: skipped without a report.
    Blank,
    /// Fewer than four fields.
    FieldCount,
    /// The second field is not a combination mode.
    BadMode,
}

/// Outcome of one combination line.
#[derive(Debug, Clone, PartialEq)]
pub enum CombinationLineResult {
    Recipe(CombinationRecipe),
    Blank,
    FieldCount,
    BadMode,
}

impl View for CombinationLineResult {
    type V = CombinationLineV;

    open spec fn view(&self) -> CombinationLineV {
        match self {
            CombinationLineResult::Recipe(r) => CombinationLineV::Recipe(r@),
            CombinationLineResult::Blank => CombinationLineV::Blank,
            CombinationLineResult::FieldCount => CombinationLineV::FieldCount,
            CombinationLineResult::BadMode => CombinationLineV::BadMode,
        }
    }
}

/// What a combination line denotes: fields `input1, mode, input2, output`,
/// each trimmed; extra fields are ignored.
pub open spec fn spec_combination_line(s: Seq<char>) -> CombinationLineV {
    let fs = spec_fields(s, 0);
    if fs.len() < 4 {
        if fs.len() == 1 && spec_trim(fs[0]).len() == 0 {
            CombinationLineV::Blank
        } else {
            CombinationLineV::FieldCount
        }
    } else {
        match CombinationMode::spec_parse(spec_trim(fs[1])) {
            Some(m) => CombinationLineV::Recipe(
                CombinationRecipeV {
                    input1: IngredientV::Item(spec_trim(fs[0])),
                    input2: IngredientV::Item(spec_trim(fs[2])),
                    mode: m,
                    output: ResultItemV::Item(spec_trim(fs[3])),
                },
            ),
            None => CombinationLineV::BadMode,
        }
    }
}

/// Parses one combination line: `input1, mode, input2, output`.
pub fn parse_combination_line(line: &str) -> (r: CombinationLineResult)
    ensures
        r@ == spec_combination_line(line@),
{
    let fields = split_fields(line);
    if fields.len() < 4 {
        let first = trim_str(fields[0].as_str());
        if fields.len() == 1 && first.as_str().unicode_len() == 0 {
            proof {
                assert(spec_trim(spec_fields(line@, 0)[0]).len() == 0);
            }
            return CombinationLineResult::Blank;
        }
        return CombinationLineResult::FieldCount;
    }
    let mode_text = trim_str(fields[1].as_str());
    let mode = match CombinationMode::parse(mode_text.as_str()) {
        Some(m) => m,
        None => {
            return CombinationLineResult::BadMode;
        },
    };
    let rec = CombinationRecipe {
        input1: Ingredient::Item(trim_str(fields[0].as_str())),
        input2: Ingredient::Item(trim_str(fields[2].as_str())),
        mode,
        output: ResultItem::Item(trim_str(fields[3].as_str())),
    };
    CombinationLineResult::Recipe(rec)
}

/// Inserting into a keyed entry list: overwrite the first entry with the
/// key, or append.
pub open spec fn seq_insert(s: Seq<(Seq<char>, i32)>, k: Seq<char>, v: i32) -> Seq<
    (Seq<char>, i32),
>
    decreases s.len(),
{
    if s.len() == 0 {
        seq![(k, v)]
    } else if s[0].0 == k {
        seq![(k, v)] + s.drop_first()
    } else {
        seq![s[0]] + seq_insert(s.drop_first(), k, v)
    }
}

/// When the key is absent, inserting appends.
pub(crate) proof fn lemma_seq_insert_absent(s: Seq<(Seq<char>, i32)>, k: Seq<char>, v: i32)
    requires
        forall|i: int| 0 <= i < s.len() ==> (#[trigger] s[i]).0 != k,
    ensures
        seq_insert(s, k, v) == s.push((k, v)),
    decreases s.len(),
{
    if s.len() == 0 {
        assert(seq_insert(s, k, v) =~= s.push((k, v)));
    } else {
        assert(forall|i: int|
            0 <= i < s.drop_first().len() ==> (#[trigger] s.drop_first()[i]).0 != k);
        lemma_seq_insert_absent(s.drop_first(), k, v);
        assert(seq_insert(s, k, v) =~= s.push((k, v)));
    }
}

/// When the key is present at `i` in a unique-keyed list, inserting
/// overwrites there.
pub(crate) proof fn lemma_seq_insert_present(s: Seq<(Seq<char>, i32)>, i: int, k: Seq<char>, v: i32)
    requires
        0 <= i < s.len(),
        s[i].0 == k,
        unique_keys(s),
    ensures
        seq_insert(s, k, v) == s.update(i, (k, v)),
    decreases s.len(),
{
    if i == 0 {
        assert(seq_insert(s, k, v) =~= s.update(0, (k, v)));
    } else {
        assert(s[0].0 != k);
        let d = s.drop_first();
        assert(unique_keys(d)) by {
            assert(forall|a: int, b: int|
                0 <= a < b < d.len() ==> (#[trigger] d[a]).0 != (#[trigger] d[b]).0);
        }
        assert(d[i - 1].0 == k);
        lemma_seq_insert_present(d, i - 1, k, v);
        assert(seq_insert(s, k, v) =~= s.update(i, (k, v))) by {
            assert(d.update(i - 1, (k, v)) =~= s.update(i, (k, v)).drop_first());
        }
    }
}

/// What one cost field denotes: split at the first `=`, else at the last
/// `:`; the name is trimmed and qualified, the amount is trimmed signed
/// decimal text, leading zeros and a plus sign allowed.
pub open spec fn spec_cost_field(f: Seq<char>) -> Option<(Seq<char>, i32)> {
    let e = char_pos(f, 0, '=');
    let lc = last_colon(f);
    let raw: Option<(Seq<char>, Seq<char>)> = if e < f.len() {
        Some((f.subrange(0, e), f.subrange(e + 1, f.len() as int)))
    } else if lc >= 0 {
        Some((f.subrange(0, lc), f.subrange(lc + 1, f.len() as int)))
    } else {
        None
    };
    match raw {
        None => None,
        Some((rk, ra)) => {
            let key = spec_qualify(spec_trim(rk));
            let t = spec_trim(ra);
            if lenient_shape(t) && -2147483648 <= lenient_val(t) <= 2147483647 {
                Some((key, lenient_val(t) as i32))
            } else {
                None
            }
        },
    }
}

/// The grist entries a list of cost fields denotes, inserted in order;
/// `None` when any field is malformed.
pub open spec fn spec_costs(fs: Seq<Seq<char>>) -> Option<Seq<(Seq<char>, i32)>>
    decreases fs.len(),
{
    if fs.len() == 0 {
        Some(Seq::<(Seq<char>, i32)>::empty())
    } else {
        match (spec_costs(fs.drop_last()), spec_cost_field(fs.last())) {
            (Some(acc), Some(kv)) => Some(seq_insert(acc, kv.0, kv.1)),
            _ => None,
        }
    }
}

/// Spec-level outcome of one grist-cost line.
pub enum GristLineV {
    Recipe(GristCostRecipeV),
    /// No cost fields at all: skipped without a report.
    Blank,
    /// A cost field is malformed or its amount does not parse.
    BadCost,
}

/// Outcome of one grist-cost line.
#[derive(Debug, Clone, PartialEq)]
pub enum GristLineResult {
    Recipe(GristCostRecipe),
    Blank,
    BadCost,
}

impl View for GristLineResult {
    type V = GristLineV;

    open spec fn view(&self) -> GristLineV {
        match self {
            GristLineResult::Recipe(r) => GristLineV::Recipe(r@),
            GristLineResult::Blank => GristLineV::Blank,
            GristLineResult::BadCost => GristLineV::BadCost,
        }
    }
}

/// What a grist-cost line denotes: `item, name=amount, name:amount, ...`,
/// with the fixed priority the batch tool assigns.
pub open spec fn spec_grist_line(s: Seq<char>) -> GristLineV {
    let fs = spec_fields(s, 0);
    if fs.len() == 1 {
        GristLineV::Blank
    } else {
        match spec_costs(fs.drop_first()) {
            None => GristLineV::BadCost,
            Some(cs) => GristLineV::Recipe(
                GristCostRecipeV {
                    priority: Some(101),
                    ingredient: IngredientV::Item(spec_trim(fs[0])),
                    grist_cost: cs,
                },
            ),
        }
    }
}

/// Parses one cost field.
fn parse_cost_field(f: &str) -> (r: Option<(String, i32)>)
    ensures
        match r {
            Some(kv) => spec_cost_field(f@) == Some((kv.0@, kv.1)),
            None => spec_cost_field(f@) is None,
        },
{
    let n = f.unicode_len();
    let e = find_char_from(f, 0, '=');
    let (rk, ra): (String, String) = if e < n {
        (
            String::from_str(f.substring_char(0, e)),
            String::from_str(f.substring_char(e + 1, n)),
        )
    } else {
        match find_last_colon(f) {
            Some(lc) => (
                String::from_str(f.substring_char(0, lc)),
                String::from_str(f.substring_char(lc + 1, n)),
            ),
            None => {
                return None;
            },
        }
    };
    let key = grist_resource(trim_str(rk.as_str()).as_str());
    let t = trim_str(ra.as_str());
    match parse_i32_lenient(t.as_str()) {
        Some(v) => {
            proof {
                assert(lenient_val(t@) as i32 == v);
            }
            Some((key, v))
        },
        None => {
            proof {
                if lenient_shape(t@) && -2147483648 <= lenient_val(t@) <= 2147483647 {
                    assert(false);
                }
            }
            None
        },
    }
}

/// Parses one grist-cost line: `item, grist=amount, grist:amount, ...`.
#[verifier::loop_isolation(false)]
pub fn parse_grist_line(line: &str) -> (r: GristLineResult)
    ensures
        r@ == spec_grist_line(line@),
{
    let fields = split_fields(line);
    let m = fields.len();
    if m == 1 {
        return GristLineResult::Blank;
    }
    let ghost fs = spec_fields(line@, 0);
    let ghost costs_fields = fs.drop_first();
    let mut gm = GristMap::new();
    let mut k: usize = 1;
    while k < m
        invariant
            1 <= k <= m,
            gm.wf(),
            Some(gm@) == spec_costs(costs_fields.take(k as int - 1)),
        decreases m - k,
    {
        let ghost pre = costs_fields.take(k as int - 1);
        let ghost cur = costs_fields.take(k as int);
        proof {
            assert(cur.drop_last() =~= pre);
            assert(cur.last() == fs[k as int]);
            assert(fields@[k as int]@ == fs[k as int]);
        }
        match parse_cost_field(fields[k].as_str()) {
            Some(kv) => {
                let ghost gpre = gm@;
                let ghost kk = kv.0@;
                let ghost vv = kv.1;
                gm.insert(kv.0, kv.1);
                proof {
                    if forall|i: int| 0 <= i < gpre.len() ==> (#[trigger] gpre[i]).0 != kk {
                        lemma_seq_insert_absent(gpre, kk, vv);
                    } else {
                        let i = choose|i: int|
                            0 <= i < gpre.len() && (#[trigger] gpre[i]).0 == kk;
                        let j = choose|j: int|
                            0 <= j < gpre.len() && (#[trigger] gpre[j]).0 == kk && gm@
                                == gpre.update(j, (kk, vv));
                        lemma_seq_insert_present(gpre, j, kk, vv);
                    }
                    assert(gm@ == seq_insert(gpre, kk, vv));
                }
            },
            None => {
                proof {
                    assert(spec_costs(cur) is None);
                    lemma_costs_none_sticky(costs_fields, k as int);
                }
                return GristLineResult::BadCost;
            },
        }
        k = k + 1;
    }
    proof {
        assert(costs_fields.take(m as int - 1) =~= costs_fields);
    }
    let item = trim_str(fields[0].as_str());
    proof {
        assert(fields@[0]@ == fs[0]);
    }
    GristLineResult::Recipe(
        GristCostRecipe {
            priority: Some(101),
            ingredient: Ingredient::Item(item),
            grist_cost: gm,
        },
    )
}

/// Once a cost prefix is malformed, the whole list is.
proof fn lemma_costs_none_sticky(fs: Seq<Seq<char>>, k: int)
    requires
        0 < k <= fs.len(),
        spec_costs(fs.take(k)) is None,
    ensures
        spec_costs(fs) is None,
    decreases fs.len() - k,
{
    if k == fs.len() {
        assert(fs.take(k) =~= fs);
    } else {
        assert(fs.take(k + 1).drop_last() =~= fs.take(k));
        lemma_costs_none_sticky(fs, k + 1);
    }
}

} // verus!
