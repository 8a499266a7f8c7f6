//! The data pack repository: pack metadata, the keyed recipe collection,
//! and the save/load round trip against a list of files.
//!
//! Saving produces, for every valid recipe, one file at `<key>.json` whose
//! text is the recipe's canonical JSON; invalid recipes are left out.
//! Loading walks a file list, takes every `data/...*.json` entry whose text
//! is canonical, and rebuilds the keyed collection.

use vstd::prelude::*;
use vstd::string::*;
use crate::codec::{
    lemma_peel, lemma_recipe_json_injective, lemma_validate_quote_free, recipe_from_json,
    recipe_json, recipe_jsonable, recipe_to_json,
};
use crate::numbers::{dec_int, push_dec_i32};
use crate::recipe::{unique_keys, Recipe, RecipeV};
use crate::text::{
    ends_with, expect_lit, lemma_lex_trans, lemma_lex_trichotomy, lex_lt, scan_number_end,
    scan_to_quote, starts_with, str_lt,
};

verus! {

/// Spec-level pack descriptor.
pub struct PackV {
    pub pack_format: i32,
    pub description: Seq<char>,
}

/// The pack descriptor inside `pack.mcmeta`.
#[derive(Debug, Clone, PartialEq, Eq)]
pub struct Pack {
    pub pack_format: i32,
    pub description: String,
}

impl View for Pack {
    type V = PackV;

    open spec fn view(&self) -> PackV {
        PackV { pack_format: self.pack_format, description: self.description@ }
    }
}

/// The default pack descriptor.
pub open spec fn default_pack() -> PackV {
    PackV { pack_format: 10, description: "Created by Minestuck Datapack Generator"@ }
}

impl core::default::Default for Pack {
    /// Pack format 10 with the generator's stock description.
    fn default() -> (d: Pack)
        ensures
            d@ == default_pack(),
    {
        Pack {
            pack_format: 10,
            description: String::from_str("Created by Minestuck Datapack Generator"),
        }
    }
}

/// Spec-level pack metadata.
pub struct MCMetaV {
    pub pack: PackV,
}

/// The contents of `pack.mcmeta`.
#[derive(Debug, Clone, PartialEq, Eq)]
pub struct MCMeta {
    pub pack: Pack,
}

impl View for MCMeta {
    type V = MCMetaV;

    open spec fn view(&self) -> MCMetaV {
        MCMetaV { pack: self.pack@ }
    }
}

impl core::default::Default for MCMeta {
    /// The default pack descriptor, wrapped.
    fn default() -> (d: MCMeta)
        ensures
            d@ == (MCMetaV { pack: default_pack() }),
    {
        MCMeta { pack: Pack::default() }
    }
}

/// The escaped form of one character inside a JSON string: a quote or a
/// backslash gets a leading backslash, everything else stands as it is.
pub open spec fn esc_char(c: char) -> Seq<char> {
    if c == '"' || c == '\\' {
        seq!['\\', c]
    } else {
        seq![c]
    }
}

/// The escaped form of a whole string.
pub open spec fn json_escape(s: Seq<char>) -> Seq<char>
    decreases s.len(),
{
    if s.len() == 0 {
        Seq::<char>::empty()
    } else {
        esc_char(s[0]) + json_escape(s.drop_first())
    }
}

/// Escaping one more character appends its escaped form.
proof fn lemma_escape_push(s: Seq<char>, c: char)
    ensures
        json_escape(s.push(c)) == json_escape(s) + esc_char(c),
    decreases s.len(),
{
    assert(json_escape(Seq::<char>::empty()) == Seq::<char>::empty());
    if s.len() == 0 {
        assert(s.push(c)[0] == c);
        assert(s.push(c).drop_first() =~= Seq::<char>::empty());
        assert(json_escape(s.push(c)) == esc_char(c) + json_escape(s.push(c).drop_first()));
        assert(json_escape(s.push(c)) =~= json_escape(s) + esc_char(c));
    } else {
        assert(s.push(c)[0] == s[0]);
        assert(s.push(c).drop_first() =~= s.drop_first().push(c));
        lemma_escape_push(s.drop_first(), c);
        assert(json_escape(s.push(c)) == esc_char(s[0]) + json_escape(s.drop_first().push(c)));
        assert(json_escape(s.push(c)) =~= json_escape(s) + esc_char(c));
    }
}

/// Reads an escaped JSON string body from `i` up to its closing quote:
/// the decoded characters and the position of that quote, or nothing when
/// the text is not a well-escaped body.
pub open spec fn scan_esc(s: Seq<char>, i: int) -> Option<(Seq<char>, int)>
    decreases s.len() - i when 0 <= i <= s.len()
{
    if i >= s.len() {
        None
    } else if s[i] == '"' {
        Some((Seq::<char>::empty(), i))
    } else if s[i] == '\\' {
        if i + 2 <= s.len() && (s[i + 1] == '"' || s[i + 1] == '\\') {
            match scan_esc(s, i + 2) {
                Some(p) => Some((seq![s[i + 1]] + p.0, p.1)),
                None => None,
            }
        } else {
            None
        }
    } else {
        match scan_esc(s, i + 1) {
            Some(p) => Some((seq![s[i]] + p.0, p.1)),
            None => None,
        }
    }
}

/// What the scan consumed is exactly the escaped form of what it decoded.
proof fn lemma_scan_esc_sound(s: Seq<char>, i: int)
    requires
        0 <= i <= s.len(),
        scan_esc(s, i) is Some,
    ensures
        ({
            let p = scan_esc(s, i)->0;
            &&& i <= p.1 < s.len()
            &&& s[p.1] == '"'
            &&& s.subrange(i, p.1) == json_escape(p.0)
        }),
    decreases s.len() - i,
{
    let p = scan_esc(s, i)->0;
    if s[i] == '"' {
        assert(s.subrange(i, i) =~= json_escape(p.0));
    } else if s[i] == '\\' {
        let q = scan_esc(s, i + 2)->0;
        lemma_scan_esc_sound(s, i + 2);
        assert(p.0 == seq![s[i + 1]] + q.0);
        assert(json_escape(p.0) =~= esc_char(s[i + 1]) + json_escape(q.0)) by {
            assert(p.0[0] == s[i + 1]);
            assert(p.0.drop_first() =~= q.0);
        }
        assert(s.subrange(i, p.1) =~= json_escape(p.0)) by {
            assert(s.subrange(i + 2, p.1) == json_escape(q.0));
        }
    } else {
        let q = scan_esc(s, i + 1)->0;
        lemma_scan_esc_sound(s, i + 1);
        assert(p.0 == seq![s[i]] + q.0);
        assert(json_escape(p.0) =~= esc_char(s[i]) + json_escape(q.0)) by {
            assert(p.0[0] == s[i]);
            assert(p.0.drop_first() =~= q.0);
        }
        assert(s.subrange(i, p.1) =~= json_escape(p.0)) by {
            assert(s.subrange(i + 1, p.1) == json_escape(q.0));
        }
    }
}

/// Text that is an escaped body followed by a quote always scans, to
/// exactly that body.
proof fn lemma_scan_esc_complete(s: Seq<char>, i: int, d: Seq<char>, rest: Seq<char>)
    requires
        0 <= i <= s.len(),
        s.subrange(i, s.len() as int) == json_escape(d) + seq!['"'] + rest,
    ensures
        scan_esc(s, i) == Some((d, i + json_escape(d).len())),
    decreases d.len(),
{
    assert(s.subrange(i, s.len() as int) =~= json_escape(d) + (seq!['"'] + rest));
    lemma_peel(s, i, json_escape(d), seq!['"'] + rest);
    if d.len() == 0 {
        assert(s[i] == '"') by {
            assert(s.subrange(i, s.len() as int)[0] == '"');
        }
    } else {
        let c = d[0];
        assert(json_escape(d) == esc_char(c) + json_escape(d.drop_first()));
        if c == '"' || c == '\\' {
            assert(s.subrange(i, s.len() as int) =~= seq!['\\', c] + (json_escape(d.drop_first())
                + seq!['"'] + rest));
            lemma_peel(s, i, seq!['\\', c], json_escape(d.drop_first()) + seq!['"'] + rest);
            assert(s.subrange(i, i + 2) == seq!['\\', c]);
            assert(s[i] == s.subrange(i, i + 2)[0]);
            assert(s[i + 1] == s.subrange(i, i + 2)[1]);
            lemma_scan_esc_complete(s, i + 2, d.drop_first(), rest);
            assert(seq![s[i + 1]] + d.drop_first() =~= d);
        } else {
            assert(s.subrange(i, s.len() as int) =~= seq![c] + (json_escape(d.drop_first())
                + seq!['"'] + rest));
            lemma_peel(s, i, seq![c], json_escape(d.drop_first()) + seq!['"'] + rest);
            assert(s.subrange(i, i + 1) == seq![c]);
            assert(s[i] == s.subrange(i, i + 1)[0]);
            lemma_scan_esc_complete(s, i + 1, d.drop_first(), rest);
            assert(seq![s[i]] + d.drop_first() =~= d);
        }
    }
}

/// Reads an escaped JSON string body starting at `i`: the decoded text
/// and the position of the closing quote.
#[verifier::loop_isolation(false)]
fn scan_escaped(s: &str, i: usize) -> (r: Option<(String, usize)>)
    requires
        i <= s@.len(),
    ensures
        (r matches Some(p) ==> scan_esc(s@, i as int) == Some((p.0@, p.1 as int)) && i <= p.1
            < s@.len()),
        (r is None ==> scan_esc(s@, i as int) is None),
{
    let ghost sv = s@;
    let n = s.unicode_len();
    let mut acc = String::new();
    let mut p: usize = i;
    while p < n
        invariant
            i <= p <= n,
            scan_esc(sv, i as int) == (match scan_esc(sv, p as int) {
                Some(q) => Some((acc@ + q.0, q.1)),
                None => None,
            }),
        decreases n - p,
    {
        let ch = s.get_char(p);
        if ch == '"' {
            proof {
                assert(scan_esc(sv, p as int) == Some((Seq::<char>::empty(), p as int)));
                assert(acc@ + Seq::<char>::empty() =~= acc@);
            }
            return Some((acc, p));
        }
        if ch == '\\' {
            if n - p >= 2 && (s.get_char(p + 1) == '"' || s.get_char(p + 1) == '\\') {
                let ghost accpre = acc@;
                acc.append(s.substring_char(p + 1, p + 2));
                proof {
                    assert(acc@ =~= accpre + seq![sv[p as int + 1]]);
                    assert forall|d: Seq<char>, j: int|
                        scan_esc(sv, p as int + 2) == Some((d, j)) implies accpre + (seq![
                            sv[p as int + 1],
                        ] + d) =~= acc@ + d by {}
                }
                p = p + 2;
            } else {
                proof {
                    assert(scan_esc(sv, p as int) is None);
                }
                return None;
            }
        } else {
            let ghost accpre = acc@;
            acc.append(s.substring_char(p, p + 1));
            proof {
                assert(acc@ =~= accpre + seq![sv[p as int]]);
                assert forall|d: Seq<char>, j: int|
                    scan_esc(sv, p as int + 1) == Some((d, j)) implies accpre + (seq![
                        sv[p as int],
                    ] + d) =~= acc@ + d by {}
            }
            p = p + 1;
        }
    }
    proof {
        assert(scan_esc(sv, p as int) is None);
    }
    None
}

/// Canonical text of `pack.mcmeta`.  The description stands between its
/// quotes with quotes and backslashes escaped, so every description has a
/// canonical text and reads back as itself.
pub open spec fn mcmeta_json(m: MCMetaV) -> Seq<char> {
    "{\"pack\":{\"pack_format\":"@ + dec_int(m.pack.pack_format as int) + ",\"description\":\""@
        + json_escape(m.pack.description) + "\"}}"@
}

/// Serializes pack metadata as its canonical JSON text.
#[verifier::loop_isolation(false)]
pub fn mcmeta_to_json(m: &MCMeta) -> (out: String)
    ensures
        out@ == mcmeta_json(m@),
{
    let mut out = String::from_str("{\"pack\":{\"pack_format\":");
    push_dec_i32(&mut out, m.pack.pack_format);
    out.append(",\"description\":\"");
    let ghost base = out@;
    let d = m.pack.description.as_str();
    let dn = d.unicode_len();
    let mut i: usize = 0;
    proof {
        assert(d@.take(0) =~= Seq::<char>::empty());
        assert(out@ =~= base + json_escape(d@.take(0)));
    }
    while i < dn
        invariant
            i <= dn,
            out@ == base + json_escape(d@.take(i as int)),
        decreases dn - i,
    {
        let ghost pre = d@.take(i as int);
        let c = d.get_char(i);
        if c == '"' {
            out.append("\\\"");
            proof {
                reveal_strlit("\\\"");
                assert("\\\""@ =~= esc_char(c));
            }
        } else if c == '\\' {
            out.append("\\\\");
            proof {
                reveal_strlit("\\\\");
                assert("\\\\"@ =~= esc_char(c));
            }
        } else {
            out.append(d.substring_char(i, i + 1));
            proof {
                assert(d@.subrange(i as int, i as int + 1) =~= esc_char(c));
            }
        }
        proof {
            lemma_escape_push(pre, c);
            assert(d@.take(i as int + 1) =~= pre.push(c));
            assert(out@ =~= base + json_escape(d@.take(i as int + 1)));
        }
        i = i + 1;
    }
    out.append("\"}}");
    proof {
        assert(d@.take(dn as int) =~= d@);
        assert(out@ =~= mcmeta_json(m@));
    }
    out
}

/// Facts about the canonical text of pack metadata.
proof fn lemma_mcmeta_layout(sv: Seq<char>, mv: MCMetaV)
    requires
        sv == mcmeta_json(mv),
    ensures
        ({
            let d = dec_int(mv.pack.pack_format as int);
            let e = json_escape(mv.pack.description);
            let o2 = 23 + d.len() as int;
            let o3 = o2 + 16;
            let o4 = o3 + e.len() as int;
            &&& sv.len() == o4 + 3
            &&& sv.subrange(0, 23) == "{\"pack\":{\"pack_format\":"@
            &&& sv.subrange(23, sv.len() as int) == d + (",\"description\":\""@ + (e + "\"}}"@))
            &&& sv.subrange(o2, o3) == ",\"description\":\""@
            &&& sv.subrange(o3, sv.len() as int) == e + seq!['"'] + "}}"@
            &&& sv.subrange(o4, o4 + 3) == "\"}}"@
        }),
{
    reveal_strlit("{\"pack\":{\"pack_format\":");
    reveal_strlit(",\"description\":\"");
    reveal_strlit("\"}}");
    reveal_strlit("}}");
    let lit1 = "{\"pack\":{\"pack_format\":"@;
    let d = dec_int(mv.pack.pack_format as int);
    let e = json_escape(mv.pack.description);
    let o2 = 23 + d.len() as int;
    let o3 = o2 + 16;
    let o4 = o3 + e.len() as int;
    assert(lit1.len() == 23);
    assert(sv.subrange(0, sv.len() as int) =~= sv);
    assert(sv =~= lit1 + (d + (",\"description\":\""@ + (e + "\"}}"@))));
    lemma_peel(sv, 0, lit1, d + (",\"description\":\""@ + (e + "\"}}"@)));
    lemma_peel(sv, 23, d, ",\"description\":\""@ + (e + "\"}}"@));
    lemma_peel(sv, o2, ",\"description\":\""@, e + "\"}}"@);
    lemma_peel(sv, o3, e, "\"}}"@);
    assert(sv.subrange(o3, sv.len() as int) =~= e + seq!['"'] + "}}"@);
}

/// Parses canonical `pack.mcmeta` text, and nothing else: every metadata
/// value's canonical text parses, back to that value; on anything else
/// the caller falls back to the default.
#[verifier::rlimit(60)]
pub fn mcmeta_from_json(s: &str) -> (r: Option<MCMeta>)
    ensures
        (r matches Some(m) ==> s@ == mcmeta_json(m@)),
        (forall|mv: MCMetaV| s@ == mcmeta_json(mv) ==> (r matches Some(m) && m@ == mv)),
{
    proof {
        reveal_strlit("{\"pack\":{\"pack_format\":");
        reveal_strlit(",\"description\":\"");
        reveal_strlit("\"}}");
        reveal_strlit("}}");
    }
    let ghost sv = s@;
    let n = s.unicode_len();
    let i1 = match expect_lit(s, 0, "{\"pack\":{\"pack_format\":") {
        Some(x) => x,
        None => {
            proof {
                assert forall|mv: MCMetaV| sv != mcmeta_json(mv) by {
                    if sv == mcmeta_json(mv) {
                        lemma_mcmeta_layout(sv, mv);
                        assert(false);
                    }
                }
            }
            return None;
        },
    };
    let j0 = scan_number_end(s, i1);
    let pf = match crate::numbers::parse_i32(s.substring_char(i1, j0)) {
        Some(v) => v,
        None => {
            proof {
                assert forall|mv: MCMetaV| sv != mcmeta_json(mv) by {
                    if sv == mcmeta_json(mv) {
                        lemma_mcmeta_layout(sv, mv);
                        crate::codec::lemma_number_scan_align(sv, 23, mv.pack.pack_format,
                            ",\"description\":\""@ + (json_escape(mv.pack.description)
                            + "\"}}"@), j0 as int);
                        assert(sv.subrange(i1 as int, j0 as int) == dec_int(
                            mv.pack.pack_format as int,
                        ));
                        assert(false);
                    }
                }
            }
            return None;
        },
    };
    proof {
        assert forall|mv: MCMetaV| sv == mcmeta_json(mv) implies mv.pack.pack_format == pf && j0
            == 23 + dec_int(mv.pack.pack_format as int).len() by {
            lemma_mcmeta_layout(sv, mv);
            crate::codec::lemma_number_scan_align(sv, 23, mv.pack.pack_format,
                ",\"description\":\""@ + (json_escape(mv.pack.description) + "\"}}"@),
                j0 as int);
            assert(sv.subrange(i1 as int, j0 as int) == dec_int(mv.pack.pack_format as int));
        }
    }
    let i2 = match expect_lit(s, j0, ",\"description\":\"") {
        Some(x) => x,
        None => {
            proof {
                assert forall|mv: MCMetaV| sv != mcmeta_json(mv) by {
                    if sv == mcmeta_json(mv) {
                        lemma_mcmeta_layout(sv, mv);
                        assert(false);
                    }
                }
            }
            return None;
        },
    };
    let (desc, q) = match scan_escaped(s, i2) {
        Some(p) => p,
        None => {
            proof {
                assert forall|mv: MCMetaV| sv != mcmeta_json(mv) by {
                    if sv == mcmeta_json(mv) {
                        lemma_mcmeta_layout(sv, mv);
                        lemma_scan_esc_complete(sv, i2 as int, mv.pack.description, "}}"@);
                        assert(false);
                    }
                }
            }
            return None;
        },
    };
    let i3 = match expect_lit(s, q, "\"}}") {
        Some(x) => x,
        None => {
            proof {
                assert forall|mv: MCMetaV| sv != mcmeta_json(mv) by {
                    if sv == mcmeta_json(mv) {
                        lemma_mcmeta_layout(sv, mv);
                        lemma_scan_esc_complete(sv, i2 as int, mv.pack.description, "}}"@);
                        assert(q == i2 + json_escape(mv.pack.description).len());
                        assert(false);
                    }
                }
            }
            return None;
        },
    };
    if i3 != n {
        proof {
            assert forall|mv: MCMetaV| sv != mcmeta_json(mv) by {
                if sv == mcmeta_json(mv) {
                    lemma_mcmeta_layout(sv, mv);
                    lemma_scan_esc_complete(sv, i2 as int, mv.pack.description, "}}"@);
                    assert(false);
                }
            }
        }
        return None;
    }
    let m = MCMeta { pack: Pack { pack_format: pf, description: desc } };
    proof {
        lemma_scan_esc_sound(sv, i2 as int);
        assert(sv.subrange(i2 as int, q as int) == json_escape(m@.pack.description));
        assert(sv =~= sv.subrange(0, i1 as int) + sv.subrange(i1 as int, j0 as int) + sv.subrange(
            j0 as int,
            i2 as int,
        ) + sv.subrange(i2 as int, q as int) + sv.subrange(q as int, i3 as int));
        assert(sv =~= mcmeta_json(m@));
        assert forall|mv: MCMetaV| sv == mcmeta_json(mv) implies m@ == mv by {
            lemma_mcmeta_layout(sv, mv);
            lemma_scan_esc_complete(sv, i2 as int, mv.pack.description, "}}"@);
            assert(desc@ == mv.pack.description);
        }
    }
    Some(m)
}

/// One file of a pack tree: its path relative to the pack root, and its
/// full text.
#[derive(Debug, Clone, PartialEq, Eq)]
pub struct FileEntry {
    pub path: String,
    pub content: String,
}

/// The view of a file list: path and content character sequences.
pub open spec fn files_seq(fs: Seq<FileEntry>) -> Seq<(Seq<char>, Seq<char>)> {
    Seq::new(fs.len(), |i: int| (fs[i].path@, fs[i].content@))
}

/// The keyed recipe collection: location key to recipe, with unique keys
/// kept sorted lexicographically, the order in which save visits them.
#[derive(Debug, Clone, PartialEq)]
pub struct RecipeMap {
    entries: Vec<(String, Recipe)>,
}

impl View for RecipeMap {
    type V = Seq<(Seq<char>, RecipeV)>;

    closed spec fn view(&self) -> Seq<(Seq<char>, RecipeV)> {
        Seq::new(self.entries@.len(), |i: int| (self.entries@[i].0@, self.entries@[i].1@))
    }
}

/// The map a keyed entry list denotes: later entries win.
pub open spec fn rec_map_of(s: Seq<(Seq<char>, RecipeV)>) -> Map<Seq<char>, RecipeV>
    decreases s.len(),
{
    if s.len() == 0 {
        Map::<Seq<char>, RecipeV>::empty()
    } else {
        rec_map_of(s.drop_last()).insert(s.last().0, s.last().1)
    }
}

/// Updating an entry in place changes the denoted map like an insert.
proof fn lemma_rec_map_update(s: Seq<(Seq<char>, RecipeV)>, i: int, k: Seq<char>, v: RecipeV)
    requires
        0 <= i < s.len(),
        s[i].0 == k,
        unique_keys(s),
    ensures
        rec_map_of(s.update(i, (k, v))) == rec_map_of(s).insert(k, v),
    decreases s.len(),
{
    let u = s.update(i, (k, v));
    if i == s.len() - 1 {
        assert(u.drop_last() =~= s.drop_last());
        assert(rec_map_of(u) =~= rec_map_of(s).insert(k, v));
    } else {
        assert(u.drop_last() =~= s.drop_last().update(i, (k, v)));
        assert(unique_keys(s.drop_last())) by {
            assert(forall|a: int, b: int|
                0 <= a < b < s.drop_last().len() ==> (#[trigger] s.drop_last()[a]).0
                    != (#[trigger] s.drop_last()[b]).0);
        }
        lemma_rec_map_update(s.drop_last(), i, k, v);
        assert(u.last() == s.last());
        assert(s.last().0 != k) by {
            assert(s[i].0 != s[s.len() - 1].0);
        }
        assert(rec_map_of(u) =~= rec_map_of(s).insert(k, v));
    }
}

/// A key is in the denoted map exactly when some entry carries it.
pub proof fn lemma_rec_map_dom(s: Seq<(Seq<char>, RecipeV)>, k: Seq<char>)
    ensures
        rec_map_of(s).dom().contains(k) <==> exists|i: int|
            0 <= i < s.len() && (#[trigger] s[i]).0 == k,
    decreases s.len(),
{
    if s.len() > 0 {
        lemma_rec_map_dom(s.drop_last(), k);
        if s.last().0 == k {
            assert(s[s.len() - 1].0 == k);
        } else if rec_map_of(s).dom().contains(k) {
            let i = choose|i: int| 0 <= i < s.drop_last().len() && (#[trigger] s.drop_last()[i]).0 == k;
            assert(s[i].0 == k);
        } else {
            if exists|i: int| 0 <= i < s.len() && (#[trigger] s[i]).0 == k {
                let i = choose|i: int| 0 <= i < s.len() && (#[trigger] s[i]).0 == k;
                assert(s.drop_last()[i].0 == k);
            }
        }
    }
}

/// Keys ascend strictly in lexicographic order.
pub open spec fn sorted_keys(s: Seq<(Seq<char>, RecipeV)>) -> bool {
    forall|i: int, j: int| 0 <= i < j < s.len() ==> lex_lt(
        (#[trigger] s[i]).0,
        (#[trigger] s[j]).0,
    )
}

/// Inserting a fresh key anywhere changes the denoted map like an insert.
proof fn lemma_rec_map_insert_at(s: Seq<(Seq<char>, RecipeV)>, i: int, k: Seq<char>, v: RecipeV)
    requires
        0 <= i <= s.len(),
        forall|j: int| 0 <= j < s.len() ==> (#[trigger] s[j]).0 != k,
    ensures
        rec_map_of(s.insert(i, (k, v))) == rec_map_of(s).insert(k, v),
    decreases s.len(),
{
    let u = s.insert(i, (k, v));
    if i == s.len() {
        assert(u =~= s.push((k, v)));
        assert(u.drop_last() =~= s);
        assert(rec_map_of(u) =~= rec_map_of(s).insert(k, v));
    } else {
        assert(u.drop_last() =~= s.drop_last().insert(i, (k, v)));
        assert(forall|j: int|
            0 <= j < s.drop_last().len() ==> (#[trigger] s.drop_last()[j]).0 != k);
        lemma_rec_map_insert_at(s.drop_last(), i, k, v);
        assert(u.last() == s.last());
        assert(s.last().0 != k) by {
            assert(s[s.len() - 1].0 != k);
        }
        assert(rec_map_of(u) =~= rec_map_of(s).insert(k, v));
    }
}

impl RecipeMap {
    /// The collection keeps its keys unique and sorted: no two entries
    /// share a location key, and keys ascend lexicographically, so save
    /// visits recipes in key order.
    pub open spec fn wf(&self) -> bool {
        unique_keys(self@) && sorted_keys(self@)
    }

    /// The map this collection denotes.
    pub open spec fn as_map(&self) -> Map<Seq<char>, RecipeV> {
        rec_map_of(self@)
    }

    /// Creates an empty collection.
    pub fn new() -> (r: RecipeMap)
        ensures
            r@ == Seq::<(Seq<char>, RecipeV)>::empty(),
            r.wf(),
            r.as_map() == Map::<Seq<char>, RecipeV>::empty(),
    {
        RecipeMap { entries: Vec::new() }
    }

    /// How many recipes the collection holds.
    pub fn len(&self) -> (r: usize)
        ensures
            r == self@.len(),
    {
        self.entries.len()
    }

    /// The location key of the entry at `i`.
    pub fn key_at(&self, i: usize) -> (r: &String)
        requires
            i < self@.len(),
        ensures
            r@ == self@[i as int].0,
    {
        &self.entries[i].0
    }

    /// The recipe of the entry at `i`.
    pub fn recipe_at(&self, i: usize) -> (r: &Recipe)
        requires
            i < self@.len(),
        ensures
            r@ == self@[i as int].1,
    {
        &self.entries[i].1
    }

    /// The recipe stored under `key`, if any.
    pub fn get(&self, key: &str) -> (r: Option<&Recipe>)
        ensures
            match r {
                Some(v) => exists|i: int|
                    0 <= i < self@.len() && (#[trigger] self@[i]) == (key@, v@),
                None => forall|i: int| 0 <= i < self@.len() ==> (#[trigger] self@[i]).0 != key@,
            },
    {
        let n = self.entries.len();
        let mut i: usize = 0;
        while i < n
            invariant
                n == self@.len(),
                i <= n,
                forall|j: int| 0 <= j < i ==> (#[trigger] self@[j]).0 != key@,
            decreases n - i,
        {
            if crate::text::str_eq(self.entries[i].0.as_str(), key) {
                let v = &self.entries[i].1;
                proof {
                    assert(self@[i as int] == (key@, v@));
                }
                return Some(v);
            }
            i = i + 1;
        }
        None
    }

    /// Inserts `key -> recipe`: overwrites in place when the key is already
    /// present, otherwise places a new entry at its position in key order.
    #[verifier::loop_isolation(false)]
    pub fn insert(&mut self, key: String, recipe: Recipe)
        requires
            old(self).wf(),
        ensures
            final(self).wf(),
            final(self).as_map() == old(self).as_map().insert(key@, recipe@),
            old(self)@.len() <= final(self)@.len() <= old(self)@.len() + 1,
    {
        let ghost k = key@;
        let ghost rv = recipe@;
        let n = self.entries.len();
        let mut i: usize = 0;
        while i < n && str_lt(self.entries[i].0.as_str(), key.as_str())
            invariant
                *self == *old(self),
                n == self@.len(),
                i <= n,
                forall|j: int| 0 <= j < i ==> lex_lt((#[trigger] self@[j]).0, k),
            decreases n - i,
        {
            i = i + 1;
        }
        let ghost pre = self@;
        if i < n && crate::text::str_eq(self.entries[i].0.as_str(), key.as_str()) {
            self.entries.set(i, (key, recipe));
            proof {
                let upd = pre.update(i as int, (k, rv));
                assert(self@ =~= upd);
                assert(forall|j: int| 0 <= j < upd.len() ==> (#[trigger] upd[j]).0 == pre[j].0);
                assert(unique_keys(self@));
                assert(sorted_keys(self@));
                lemma_rec_map_update(pre, i as int, k, rv);
            }
            return;
        }
        proof {
            // the key is new: entries before `i` precede it strictly, and
            // the entry at `i` (if any) comes strictly after it
            if i < pre.len() {
                lemma_lex_trichotomy(pre[i as int].0, k);
            }
            assert forall|j: int| 0 <= j < pre.len() implies (#[trigger] pre[j]).0 != k by {
                if j < i {
                    lemma_lex_trichotomy(pre[j].0, k);
                } else if j == i {
                } else {
                    assert(lex_lt(pre[i as int].0, pre[j].0));
                    lemma_lex_trichotomy(pre[j].0, k);
                    if lex_lt(pre[j].0, k) {
                        lemma_lex_trans(k, pre[i as int].0, pre[j].0);
                        lemma_lex_trichotomy(pre[j].0, k);
                        assert(false);
                    }
                    if pre[j].0 == k {
                        lemma_lex_trans(k, pre[i as int].0, pre[j].0);
                        lemma_lex_trichotomy(k, k);
                        assert(false);
                    }
                }
            }
        }
        self.entries.insert(i, (key, recipe));
        proof {
            let u = pre.insert(i as int, (k, rv));
            assert(self@ =~= u);
            assert forall|a: int, b: int| 0 <= a < b < u.len() implies lex_lt(
                (#[trigger] u[a]).0,
                (#[trigger] u[b]).0,
            ) by {
                if a == i && b > i {
                    assert(u[b].0 == pre[b - 1].0);
                    if b - 1 > i {
                        lemma_lex_trans(k, pre[i as int].0, pre[b - 1].0);
                    }
                } else if a < i && b == i {
                    assert(u[a].0 == pre[a].0);
                } else if b < i {
                    assert(u[a].0 == pre[a].0 && u[b].0 == pre[b].0);
                } else if a > i {
                    assert(u[a].0 == pre[a - 1].0 && u[b].0 == pre[b - 1].0);
                } else {
                    assert(u[a].0 == pre[a].0 && u[b].0 == pre[b - 1].0);
                    if b - 1 > a {
                    } else {
                        assert(b - 1 == a);
                        lemma_lex_trans(pre[a].0, k, pre[i as int].0);
                    }
                }
            }
            assert forall|a: int, b: int|
                0 <= a < b < u.len() implies (#[trigger] u[a]).0 != (#[trigger] u[b]).0 by {
                lemma_lex_trichotomy(u[a].0, u[b].0);
            }
            lemma_rec_map_insert_at(pre, i as int, k, rv);
        }
    }
}

/// The in-memory data pack: metadata plus the keyed recipe collection.
#[derive(Debug, Clone, PartialEq)]
pub struct Datapack {
    pub mcmeta: MCMeta,
    pub recipes: RecipeMap,
}

/// The files a save produces for a keyed entry list: one `<key>.json` per
/// valid recipe, in entry order; invalid recipes produce nothing.
pub open spec fn spec_save(s: Seq<(Seq<char>, RecipeV)>) -> Seq<(Seq<char>, Seq<char>)>
    decreases s.len(),
{
    if s.len() == 0 {
        Seq::<(Seq<char>, Seq<char>)>::empty()
    } else if s.last().1.valid() {
        spec_save(s.drop_last()).push((s.last().0 + ".json"@, recipe_json(s.last().1)))
    } else {
        spec_save(s.drop_last())
    }
}

/// A path a load pays attention to: under `data/`, ending in `.json`.
pub open spec fn is_data_json(p: Seq<char>) -> bool {
    &&& p.len() >= 10
    &&& p.subrange(0, 5) == "data/"@
    &&& p.subrange(p.len() - 5, p.len() as int) == ".json"@
}

/// What a recipe file's text denotes: the unique renderable recipe whose
/// canonical text it is, if there is one.
pub open spec fn spec_parse_canonical(s: Seq<char>) -> Option<RecipeV> {
    if exists|rv: RecipeV| recipe_jsonable(rv) && s == recipe_json(rv) {
        Some(choose|rv: RecipeV| recipe_jsonable(rv) && s == recipe_json(rv))
    } else {
        None
    }
}

/// The recipe map a file list denotes: every well-placed canonical recipe
/// file contributes its recipe under the path with the extension stripped;
/// later files win.
pub open spec fn spec_load(files: Seq<(Seq<char>, Seq<char>)>) -> Map<Seq<char>, RecipeV>
    decreases files.len(),
{
    if files.len() == 0 {
        Map::<Seq<char>, RecipeV>::empty()
    } else {
        let m = spec_load(files.drop_last());
        let p = files.last().0;
        let c = files.last().1;
        if is_data_json(p) && spec_parse_canonical(c) is Some {
            m.insert(p.subrange(0, p.len() - 5), spec_parse_canonical(c)->0)
        } else {
            m
        }
    }
}

impl Datapack {
    /// Creates an empty data pack with default metadata.
    pub fn new() -> (d: Datapack)
        ensures
            d.mcmeta@ == (MCMetaV { pack: default_pack() }),
            d.recipes@ == Seq::<(Seq<char>, RecipeV)>::empty(),
            d.recipes.wf(),
    {
        Datapack { mcmeta: MCMeta::default(), recipes: RecipeMap::new() }
    }

    /// The files this pack's save writes: exactly the valid recipes, each
    /// under its key plus the `.json` extension, in entry order.
    pub fn save_files(&self) -> (out: Vec<FileEntry>)
        ensures
            ({
                let fs = spec_save(self.recipes@);
                &&& out@.len() == fs.len()
                &&& forall|i: int|
                    0 <= i < fs.len() ==> ((#[trigger] out@[i]).path@ == fs[i].0
                        && out@[i].content@ == fs[i].1)
            }),
    {
        proof {
            reveal_strlit(".json");
        }
        let n = self.recipes.len();
        let mut out: Vec<FileEntry> = Vec::new();
        let mut k: usize = 0;
        while k < n
            invariant
                n == self.recipes@.len(),
                k <= n,
                ({
                    let fs = spec_save(self.recipes@.take(k as int));
                    &&& out@.len() == fs.len()
                    &&& forall|i: int|
                        0 <= i < fs.len() ==> ((#[trigger] out@[i]).path@ == fs[i].0
                            && out@[i].content@ == fs[i].1)
                }),
            decreases n - k,
        {
            let ghost pre = self.recipes@.take(k as int);
            let ghost cur = self.recipes@.take(k as int + 1);
            proof {
                assert(cur.drop_last() =~= pre);
                assert(cur.last() == self.recipes@[k as int]);
            }
            let rec = self.recipes.recipe_at(k);
            if rec.is_valid() {
                let mut path = self.recipes.key_at(k).clone();
                path.append(".json");
                let content = recipe_to_json(rec);
                out.push(FileEntry { path, content });
            }
            k = k + 1;
        }
        proof {
            assert(self.recipes@.take(n as int) =~= self.recipes@);
        }
        out
    }

    /// Rebuilds a pack from the text of `pack.mcmeta`, if that file exists,
    /// and the list of files found under the pack root.  Metadata that is
    /// missing or not canonical falls back to the default; files that are
    /// not well-placed canonical recipe files are skipped.
    #[verifier::loop_isolation(false)]
    pub fn load_files(mcmeta_text: Option<&str>, files: &Vec<FileEntry>) -> (d: Datapack)
        ensures
            d.recipes.wf(),
            d.recipes.as_map() == spec_load(files_seq(files@)),
            match mcmeta_text {
                Some(t) => (forall|mv: MCMetaV| t@ == mcmeta_json(mv) ==> d.mcmeta@ == mv) && ((
                forall|mv: MCMetaV| t@ != mcmeta_json(mv)) ==> d.mcmeta@ == (MCMetaV {
                    pack: default_pack(),
                })),
                None => d.mcmeta@ == (MCMetaV { pack: default_pack() }),
            },
    {
        proof {
            reveal_strlit("data/");
            reveal_strlit(".json");
        }
        let mcmeta = match mcmeta_text {
            Some(t) => match mcmeta_from_json(t) {
                Some(m) => m,
                None => MCMeta::default(),
            },
            None => MCMeta::default(),
        };
        let mut recipes = RecipeMap::new();
        let n = files.len();
        let mut k: usize = 0;
        while k < n
            invariant
                recipes.wf(),
                k <= n,
                recipes.as_map() == spec_load(files_seq(files@).take(k as int)),
            decreases n - k,
        {
            let ghost pre = files_seq(files@).take(k as int);
            let ghost cur = files_seq(files@).take(k as int + 1);
            proof {
                assert(cur.drop_last() =~= pre);
                assert(cur.last() == (files@[k as int].path@, files@[k as int].content@));
            }
            let f = &files[k];
            let ghost pv = f.path@;
            let ghost cv = f.content@;
            let plen = f.path.as_str().unicode_len();
            let placed = plen >= 10 && starts_with(f.path.as_str(), "data/") && ends_with(
                f.path.as_str(),
                ".json",
            );
            proof {
                assert(placed == is_data_json(pv));
            }
            if placed {
                match recipe_from_json(f.content.as_str()) {
                    Some(rec) => {
                        proof {
                            assert(spec_parse_canonical(cv) == Some(rec@)) by {
                                assert(recipe_jsonable(rec@) && cv == recipe_json(rec@));
                                let w = choose|rv: RecipeV|
                                    recipe_jsonable(rv) && cv == recipe_json(rv);
                                assert(recipe_jsonable(w) && cv == recipe_json(w));
                            }
                        }
                        let key = String::from_str(f.path.as_str().substring_char(0, plen - 5));
                        proof {
                            assert(key@ == pv.subrange(0, pv.len() - 5));
                        }
                        recipes.insert(key, rec);
                    },
                    None => {
                        proof {
                            assert(spec_parse_canonical(cv) is None) by {
                                if exists|rv: RecipeV|
                                    recipe_jsonable(rv) && cv == recipe_json(rv) {
                                    let w = choose|rv: RecipeV|
                                        recipe_jsonable(rv) && cv == recipe_json(rv);
                                    assert(recipe_jsonable(w) && cv == recipe_json(w));
                                    assert(false);
                                }
                            }
                        }
                    },
                }
            }
            k = k + 1;
        }
        proof {
            assert(files_seq(files@).take(n as int) =~= files_seq(files@));
        }
        Datapack { mcmeta, recipes }
    }
}

/// A recipe's grist keys, where it has any, are unique.
pub open spec fn recipe_grist_unique(rv: RecipeV) -> bool {
    match rv {
        RecipeV::GristCost(g) => unique_keys(g.grist_cost),
        RecipeV::Combination(_) => true,
    }
}

/// A valid recipe with unique grist keys can be rendered and read back:
/// all of its identifiers are valid, and valid identifiers are quote-free.
pub proof fn lemma_valid_jsonable(rv: RecipeV)
    requires
        rv.valid(),
        recipe_grist_unique(rv),
    ensures
        recipe_jsonable(rv),
{
    match rv {
        RecipeV::GristCost(g) => {
            match g.ingredient {
                crate::recipe::IngredientV::Item(id) => {
                    lemma_validate_quote_free(id);
                },
                crate::recipe::IngredientV::Tag(id) => {
                    assert(false);
                },
            }
            assert forall|i: int|
                0 <= i < g.grist_cost.len() implies crate::codec::quote_free(
                (#[trigger] g.grist_cost[i]).0,
            ) by {
                lemma_validate_quote_free(g.grist_cost[i].0);
            }
        },
        RecipeV::Combination(c) => {
            match c.input1 {
                crate::recipe::IngredientV::Item(id) => {
                    lemma_validate_quote_free(id);
                },
                crate::recipe::IngredientV::Tag(id) => {
                    assert(false);
                },
            }
            match c.input2 {
                crate::recipe::IngredientV::Item(id) => {
                    lemma_validate_quote_free(id);
                },
                crate::recipe::IngredientV::Tag(id) => {
                    assert(false);
                },
            }
            match c.output {
                crate::recipe::ResultItemV::Item(id) => {
                    lemma_validate_quote_free(id);
                },
            }
        },
    }
}

/// Saving never writes a file named `pack.mcmeta`: every file a save
/// produces ends in `.json`.
pub proof fn lemma_save_never_touches_mcmeta(s: Seq<(Seq<char>, RecipeV)>)
    ensures
        forall|i: int|
            0 <= i < spec_save(s).len() ==> (#[trigger] spec_save(s)[i]).0 != "pack.mcmeta"@,
    decreases s.len(),
{
    reveal_strlit(".json");
    reveal_strlit("pack.mcmeta");
    if s.len() > 0 {
        lemma_save_never_touches_mcmeta(s.drop_last());
        let fs = spec_save(s);
        assert forall|i: int| 0 <= i < fs.len() implies (#[trigger] fs[i]).0
            != "pack.mcmeta"@ by {
            if s.last().1.valid() {
                let p = s.last().0 + ".json"@;
                if i == fs.len() - 1 {
                    assert(fs[i].0 == p);
                    if p == "pack.mcmeta"@ {
                        assert(p.len() == s.last().0.len() + 5);
                        assert(p.len() == 11);
                        assert(s.last().0.len() == 6);
                        assert(p[7] == 'j');
                        assert("pack.mcmeta"@[7] == 'm');
                        assert(false);
                    }
                } else {
                    assert(fs[i] == spec_save(s.drop_last())[i]);
                }
            } else {
                assert(fs[i] == spec_save(s.drop_last())[i]);
            }
        }
    }
}

/// A key appears among the saved files exactly when its recipe is valid,
/// and then with the recipe's canonical text.
pub proof fn lemma_save_membership(s: Seq<(Seq<char>, RecipeV)>, j: int)
    requires
        0 <= j < s.len(),
        unique_keys(s),
    ensures
        s[j].1.valid() ==> exists|i: int|
            0 <= i < spec_save(s).len() && #[trigger] spec_save(s)[i] == (s[j].0 + ".json"@,
            recipe_json(s[j].1)),
        !s[j].1.valid() ==> forall|i: int|
            0 <= i < spec_save(s).len() ==> (#[trigger] spec_save(s)[i]).0 != s[j].0 + ".json"@,
    decreases s.len(),
{
    let fs = spec_save(s);
    if j == s.len() - 1 {
        if s[j].1.valid() {
            assert(fs[fs.len() - 1] == (s[j].0 + ".json"@, recipe_json(s[j].1)));
        } else {
            assert(fs == spec_save(s.drop_last()));
            lemma_save_paths_from_keys(s.drop_last());
            assert forall|i: int| 0 <= i < fs.len() implies (#[trigger] fs[i]).0 != s[j].0
                + ".json"@ by {
                let w = choose|w: int|
                    0 <= w < s.drop_last().len() && (#[trigger] s.drop_last()[w]).0 + ".json"@
                        == fs[i].0;
                assert(s[w].0 != s[j].0);
                lemma_append_json_injective(s[w].0, s[j].0);
            }
        }
    } else {
        assert(unique_keys(s.drop_last())) by {
            assert(forall|a: int, b: int|
                0 <= a < b < s.drop_last().len() ==> (#[trigger] s.drop_last()[a]).0
                    != (#[trigger] s.drop_last()[b]).0);
        }
        lemma_save_membership(s.drop_last(), j);
        if s[j].1.valid() {
            let i = choose|i: int|
                0 <= i < spec_save(s.drop_last()).len() && #[trigger] spec_save(s.drop_last())[i]
                    == (s[j].0 + ".json"@, recipe_json(s[j].1));
            assert(fs[i] == (s[j].0 + ".json"@, recipe_json(s[j].1)));
        } else {
            assert forall|i: int| 0 <= i < fs.len() implies (#[trigger] fs[i]).0 != s[j].0
                + ".json"@ by {
                if s.last().1.valid() && i == fs.len() - 1 {
                    assert(s.last().0 != s[j].0);
                    lemma_append_json_injective(s.last().0, s[j].0);
                } else {
                    assert(fs[i] == spec_save(s.drop_last())[i]);
                }
            }
        }
    }
}

/// Every saved file's path is some entry's key plus the extension.
proof fn lemma_save_paths_from_keys(s: Seq<(Seq<char>, RecipeV)>)
    ensures
        forall|i: int|
            0 <= i < spec_save(s).len() ==> exists|w: int|
                0 <= w < s.len() && (#[trigger] s[w]).0 + ".json"@ == (#[trigger] spec_save(
                    s,
                )[i]).0,
    decreases s.len(),
{
    if s.len() > 0 {
        lemma_save_paths_from_keys(s.drop_last());
        assert forall|i: int| 0 <= i < spec_save(s).len() implies exists|w: int|
            0 <= w < s.len() && (#[trigger] s[w]).0 + ".json"@ == (#[trigger] spec_save(
                s,
            )[i]).0 by {
            let fs = spec_save(s);
            if s.last().1.valid() && i == fs.len() - 1 {
                assert(s[s.len() - 1].0 + ".json"@ == fs[i].0);
            } else {
                assert(fs[i] == spec_save(s.drop_last())[i]);
                let w = choose|w: int|
                    0 <= w < s.drop_last().len() && (#[trigger] s.drop_last()[w]).0 + ".json"@
                        == spec_save(s.drop_last())[i].0;
                assert(s[w].0 + ".json"@ == fs[i].0);
            }
        }
    }
}

/// Appending the extension keeps distinct keys distinct.
proof fn lemma_append_json_injective(a: Seq<char>, b: Seq<char>)
    requires
        a != b,
    ensures
        a + ".json"@ != b + ".json"@,
{
    if a + ".json"@ == b + ".json"@ {
        assert((a + ".json"@).len() == (b + ".json"@).len());
        assert(a.len() == b.len());
        assert(a =~= b) by {
            assert forall|x: int| 0 <= x < a.len() implies a[x] == b[x] by {
                assert((a + ".json"@)[x] == a[x]);
                assert((b + ".json"@)[x] == b[x]);
            }
        }
    }
}

/// The stem of a saved file's path: the path without its extension.
pub open spec fn stem(p: Seq<char>) -> Seq<char> {
    p.subrange(0, p.len() - 5)
}

/// Save visits the collection in lexicographic key order: with sorted
/// entries, the saved files' keys ascend strictly.
pub proof fn lemma_save_in_key_order(s: Seq<(Seq<char>, RecipeV)>)
    requires
        sorted_keys(s),
    ensures
        forall|i: int, j: int| 0 <= i < j < spec_save(s).len() ==> lex_lt(
            stem((#[trigger] spec_save(s)[i]).0),
            stem((#[trigger] spec_save(s)[j]).0),
        ),
    decreases s.len(),
{
    reveal_strlit(".json");
    if s.len() > 0 {
        let dl = s.drop_last();
        assert(sorted_keys(dl)) by {
            assert(forall|a: int, b: int|
                0 <= a < b < dl.len() ==> lex_lt((#[trigger] dl[a]).0, (#[trigger] dl[b]).0));
        }
        lemma_save_in_key_order(dl);
        lemma_save_paths_from_keys(dl);
        let fs = spec_save(s);
        assert forall|i: int, j: int| 0 <= i < j < fs.len() implies lex_lt(
            stem((#[trigger] fs[i]).0),
            stem((#[trigger] fs[j]).0),
        ) by {
            if s.last().1.valid() && j == fs.len() - 1 {
                assert(fs[j].0 == s.last().0 + ".json"@);
                assert(stem(fs[j].0) =~= s.last().0);
                assert(fs[i] == spec_save(dl)[i]);
                let w = choose|w: int|
                    0 <= w < dl.len() && (#[trigger] dl[w]).0 + ".json"@ == spec_save(dl)[i].0;
                assert(stem(fs[i].0) =~= dl[w].0);
                assert(lex_lt(s[w].0, s[s.len() - 1].0));
            } else {
                assert(fs[i] == spec_save(dl)[i] && fs[j] == spec_save(dl)[j]);
            }
        }
    }
}

/// The round trip: saving a collection of valid recipes with unique,
/// `data/`-rooted keys and loading the files it produced gives back
/// exactly the collection that was saved.
pub proof fn lemma_save_load_round_trip(s: Seq<(Seq<char>, RecipeV)>)
    requires
        unique_keys(s),
        forall|i: int| 0 <= i < s.len() ==> (#[trigger] s[i]).1.valid(),
        forall|i: int| 0 <= i < s.len() ==> recipe_grist_unique((#[trigger] s[i]).1),
        forall|i: int|
            0 <= i < s.len() ==> (#[trigger] s[i]).0.len() >= 5 && s[i].0.subrange(0, 5)
                == "data/"@,
    ensures
        spec_load(spec_save(s)) == rec_map_of(s),
    decreases s.len(),
{
    reveal_strlit("data/");
    reveal_strlit(".json");
    if s.len() == 0 {
        assert(spec_load(spec_save(s)) =~= rec_map_of(s));
    } else {
        assert(unique_keys(s.drop_last())) by {
            assert(forall|a: int, b: int|
                0 <= a < b < s.drop_last().len() ==> (#[trigger] s.drop_last()[a]).0
                    != (#[trigger] s.drop_last()[b]).0);
        }
        assert(forall|i: int|
            0 <= i < s.drop_last().len() ==> (#[trigger] s.drop_last()[i]) == s[i]);
        lemma_save_load_round_trip(s.drop_last());
        let k = s.last().0;
        let r = s.last().1;
        assert(s[s.len() - 1] == s.last());
        assert(r.valid() && recipe_grist_unique(r));
        lemma_valid_jsonable(r);
        let p = k + ".json"@;
        let fs = spec_save(s);
        assert(fs == spec_save(s.drop_last()).push((p, recipe_json(r))));
        assert(fs.drop_last() =~= spec_save(s.drop_last()));
        assert(fs.last() == (p, recipe_json(r)));
        assert(is_data_json(p)) by {
            assert(p.len() == k.len() + 5 >= 10);
            assert(p.subrange(0, 5) =~= k.subrange(0, 5));
            assert(p.subrange(p.len() - 5, p.len() as int) =~= ".json"@);
        }
        assert(spec_parse_canonical(recipe_json(r)) == Some(r)) by {
            assert(recipe_jsonable(r) && recipe_json(r) == recipe_json(r));
            let w = choose|rv: RecipeV|
                recipe_jsonable(rv) && recipe_json(r) == recipe_json(rv);
            assert(recipe_jsonable(w) && recipe_json(r) == recipe_json(w));
            lemma_recipe_json_injective(w, r);
        }
        assert(p.subrange(0, p.len() - 5) =~= k);
        assert(spec_load(fs) =~= rec_map_of(s));
    }
}

} // verus!
