//! JSON rendering of a document's syntax tree (through `serde_json`): the value
//! built is stated exactly ([`document_json`]); its printed text is
//! `serde_json`'s pretty printing of it.

use vstd::prelude::*;
use crate::jsonv::{
    json_array, json_bool, json_contents, json_i64, json_map_contents, json_map_insert, json_map_new, json_object,
    json_pretty, json_pretty_text, json_string, json_u64, JsonV,
};
use crate::parser::ast::{
    alts_view, calls_view, defines_view, exprs_view, grammar_view, grammars_view, stmt_view, AltV, CallV, ExprV,
    Expression, FunctionCall, GelDocument, Grammar, GrammarV, MatchList, Statement, StmtV,
};

verus! {

/// JSON generator for Gel documents.
#[derive(Debug, Default)]
pub struct JsonGenerator;

/// An object of two keys.
pub open spec fn obj2_json(k1: Seq<char>, v1: JsonV, k2: Seq<char>, v2: JsonV) -> JsonV {
    JsonV::Obj(Map::empty().insert(k1, v1).insert(k2, v2))
}

/// An expression: `{"type": kind, "value" | "index" | "name": ...}`.
pub open spec fn expr_json(e: ExprV) -> JsonV {
    match e {
        ExprV::String(s) => obj2_json("type"@, JsonV::Str("string"@), "value"@, JsonV::Str(s)),
        ExprV::Regex(r) => obj2_json("type"@, JsonV::Str("regex"@), "value"@, JsonV::Str(r)),
        ExprV::Variable(v) => obj2_json("type"@, JsonV::Str("variable"@), "value"@, JsonV::Str(v)),
        ExprV::Number(n) => obj2_json("type"@, JsonV::Str("number"@), "value"@, JsonV::Int(n as i128)),
        ExprV::Capture(i) => obj2_json("type"@, JsonV::Str("capture"@), "index"@, JsonV::Int(i as i128)),
        ExprV::CaptureName(n) => obj2_json("type"@, JsonV::Str("capture_name"@), "name"@, JsonV::Str(n)),
    }
}

/// A list of expressions as an array.
pub open spec fn exprs_json(es: Seq<ExprV>) -> JsonV {
    JsonV::Arr(es.map_values(|e: ExprV| expr_json(e)))
}

/// An action: `{"type": "call", "name": .., "args": [..]}`.
pub open spec fn call_json(c: CallV) -> JsonV {
    JsonV::Obj(Map::empty().insert("type"@, JsonV::Str("call"@)).insert("name"@, JsonV::Str(c.0)).insert("args"@, exprs_json(c.1)))
}

/// A list of actions as an array.
pub open spec fn calls_json(cs: Seq<CallV>) -> JsonV {
    JsonV::Arr(cs.map_values(|c: CallV| call_json(c)))
}

/// A match list: `[{"expressions": [..], "flags": n}, ..]`.
pub open spec fn alts_json(alts: Seq<AltV>) -> JsonV {
    JsonV::Arr(alts.map_values(|a: AltV| obj2_json("expressions"@, exprs_json(a.0), "flags"@, JsonV::Int(a.1 as i128))))
}

/// A statement, by its `type`.
pub open spec fn stmt_json(s: StmtV) -> JsonV {
    match s {
        StmtV::Match(alts, acts, ci) => JsonV::Obj(
            Map::empty().insert("type"@, JsonV::Str("match"@)).insert("case_insensitive"@, JsonV::Bool(ci)).insert(
                "patterns"@,
                alts_json(alts),
            ).insert("actions"@, calls_json(acts)),
        ),
        StmtV::When(alts, acts) => JsonV::Obj(
            Map::empty().insert("type"@, JsonV::Str("when"@)).insert("patterns"@, alts_json(alts)).insert(
                "actions"@,
                calls_json(acts),
            ),
        ),
        StmtV::Skip(e) => JsonV::Obj(Map::empty().insert("type"@, JsonV::Str("skip"@)).insert("pattern"@, expr_json(e))),
        StmtV::Action(c) => JsonV::Obj(
            Map::empty().insert("type"@, JsonV::Str("action"@)).insert("name"@, JsonV::Str(c.0)).insert(
                "args"@,
                exprs_json(c.1),
            ),
        ),
    }
}

/// A grammar: its `inherit` when it has a parent, its `statements` when it has any.
pub open spec fn grammar_json(g: GrammarV) -> JsonV {
    let m0 = Map::<Seq<char>, JsonV>::empty();
    let m1 = match g.1 {
        Some(p) => m0.insert("inherit"@, JsonV::Str(p)),
        None => m0,
    };
    JsonV::Obj(
        if g.2.len() > 0 {
            m1.insert("statements"@, JsonV::Arr(g.2.map_values(|s: StmtV| stmt_json(s))))
        } else {
            m1
        },
    )
}

/// Definitions by name.
pub open spec fn defines_json(d: Seq<(Seq<char>, ExprV)>) -> Map<Seq<char>, JsonV>
    decreases d.len(),
{
    if d.len() == 0 {
        Map::empty()
    } else {
        defines_json(d.drop_last()).insert(d.last().0, expr_json(d.last().1))
    }
}

/// Grammars by name.
pub open spec fn grammars_json(g: Seq<(Seq<char>, GrammarV)>) -> Map<Seq<char>, JsonV>
    decreases g.len(),
{
    if g.len() == 0 {
        Map::empty()
    } else {
        grammars_json(g.drop_last()).insert(g.last().0, grammar_json(g.last().1))
    }
}

/// A document: `defines` and `grammars`, each only when not empty.
pub open spec fn document_json(d: Seq<(Seq<char>, ExprV)>, g: Seq<(Seq<char>, GrammarV)>) -> JsonV {
    let m0 = Map::<Seq<char>, JsonV>::empty();
    let m1 = if d.len() > 0 {
        m0.insert("defines"@, JsonV::Obj(defines_json(d)))
    } else {
        m0
    };
    JsonV::Obj(
        if g.len() > 0 {
            m1.insert("grammars"@, JsonV::Obj(grammars_json(g)))
        } else {
            m1
        },
    )
}

/// The contents of a list of values.
pub open spec fn contents_of(v: Seq<serde_json::Value>) -> Seq<JsonV> {
    v.map_values(|x: serde_json::Value| json_contents(x))
}

fn obj2(k1: &str, v1: serde_json::Value, k2: &str, v2: serde_json::Value) -> (r: serde_json::Value)
    ensures
        json_contents(r) == obj2_json(k1@, json_contents(v1), k2@, json_contents(v2)),
{
    let mut m = json_map_new();
    json_map_insert(&mut m, k1.to_string(), v1);
    json_map_insert(&mut m, k2.to_string(), v2);
    proof {
        assert(json_map_contents(m) =~= Map::empty().insert(k1@, json_contents(v1)).insert(k2@, json_contents(v2)));
    }
    json_object(m)
}

/// A string value of a literal.
fn jstr(s: &str) -> (r: serde_json::Value)
    ensures
        json_contents(r) == JsonV::Str(s@),
{
    json_string(s.to_string())
}

impl JsonGenerator {
    pub fn new() -> (r: JsonGenerator) {
        JsonGenerator
    }

    /// The document as pretty JSON: `defines` (name -> expression) and
    /// `grammars` (name -> grammar), each only when not empty.
    pub fn generate_from_ast(document: &GelDocument) -> (r: String)
        ensures
            r@ == json_pretty_text(document_json(defines_view(*document), grammars_view(*document))),
    {
        let ghost dv = defines_view(*document);
        let ghost gv = grammars_view(*document);
        let mut result = json_map_new();
        proof {
            assert(json_map_contents(result) =~= Map::<Seq<char>, JsonV>::empty());
        }
        if document.defines.entries.len() > 0 {
            let mut defines = json_map_new();
            let mut i: usize = 0;
            proof {
                assert(dv.subrange(0, 0) =~= Seq::<(Seq<char>, ExprV)>::empty());
                assert(json_map_contents(defines) =~= defines_json(dv.subrange(0, 0)));
            }
            while i < document.defines.entries.len()
                invariant
                    i <= document.defines.entries@.len(),
                    dv == defines_view(*document),
                    json_map_contents(defines) == defines_json(dv.subrange(0, i as int)),
                decreases document.defines.entries@.len() - i,
            {
                let v = Self::expression_to_json(&document.defines.entries[i].1);
                json_map_insert(&mut defines, document.defines.entries[i].0.clone(), v);
                proof {
                    assert(dv.subrange(0, i + 1).drop_last() =~= dv.subrange(0, i as int));
                }
                i = i + 1;
            }
            proof {
                assert(dv.subrange(0, i as int) =~= dv);
            }
            json_map_insert(&mut result, "defines".to_string(), json_object(defines));
        }
        let ghost m1 = json_map_contents(result);
        if document.grammars.entries.len() > 0 {
            let mut grammars = json_map_new();
            let mut i: usize = 0;
            proof {
                assert(gv.subrange(0, 0) =~= Seq::<(Seq<char>, GrammarV)>::empty());
                assert(json_map_contents(grammars) =~= grammars_json(gv.subrange(0, 0)));
            }
            while i < document.grammars.entries.len()
                invariant
                    i <= document.grammars.entries@.len(),
                    gv == grammars_view(*document),
                    json_map_contents(grammars) == grammars_json(gv.subrange(0, i as int)),
                decreases document.grammars.entries@.len() - i,
            {
                let v = Self::grammar_to_json(&document.grammars.entries[i].1);
                json_map_insert(&mut grammars, document.grammars.entries[i].0.clone(), v);
                proof {
                    assert(gv.subrange(0, i + 1).drop_last() =~= gv.subrange(0, i as int));
                }
                i = i + 1;
            }
            proof {
                assert(gv.subrange(0, i as int) =~= gv);
            }
            json_map_insert(&mut result, "grammars".to_string(), json_object(grammars));
        }
        proof {
            assert(json_map_contents(result) =~= (match document_json(dv, gv) {
                JsonV::Obj(m) => m,
                _ => Map::empty(),
            }));
        }
        let value = json_object(result);
        json_pretty(&value)
    }

    fn grammar_to_json(grammar: &Grammar) -> (r: serde_json::Value)
        ensures
            json_contents(r) == grammar_json(grammar_view(*grammar)),
    {
        let ghost gv = grammar_view(*grammar);
        let mut result = json_map_new();
        match &grammar.inherit {
            Some(p) => json_map_insert(&mut result, "inherit".to_string(), json_string(p.clone())),
            None => {},
        }
        if grammar.statements.len() > 0 {
            let mut stmts: Vec<serde_json::Value> = Vec::new();
            let mut i: usize = 0;
            while i < grammar.statements.len()
                invariant
                    i <= grammar.statements@.len(),
                    gv == grammar_view(*grammar),
                    contents_of(stmts@) =~= gv.2.subrange(0, i as int).map_values(|s: StmtV| stmt_json(s)),
                decreases grammar.statements@.len() - i,
            {
                let v = Self::statement_to_json(&grammar.statements[i]);
                let ghost prev = stmts@;
                stmts.push(v);
                proof {
                    assert(contents_of(stmts@) =~= contents_of(prev).push(json_contents(v)));
                    assert(gv.2[i as int] == stmt_view(grammar.statements@[i as int]));
                    assert(gv.2.subrange(0, i + 1) =~= gv.2.subrange(0, i as int).push(gv.2[i as int]));
                }
                i = i + 1;
            }
            proof {
                assert(gv.2.subrange(0, i as int) =~= gv.2);
            }
            json_map_insert(&mut result, "statements".to_string(), json_array(stmts));
        }
        proof {
            assert(json_map_contents(result) =~= (match grammar_json(gv) {
                JsonV::Obj(m) => m,
                _ => Map::empty(),
            }));
        }
        json_object(result)
    }

    fn actions_to_json(acts: &[FunctionCall]) -> (r: serde_json::Value)
        ensures
            json_contents(r) == calls_json(calls_view(acts@)),
    {
        let mut out: Vec<serde_json::Value> = Vec::new();
        let mut i: usize = 0;
        while i < acts.len()
            invariant
                i <= acts@.len(),
                contents_of(out@) =~= calls_view(acts@).subrange(0, i as int).map_values(|c: CallV| call_json(c)),
            decreases acts@.len() - i,
        {
            let v = Self::action_to_json(&acts[i]);
            let ghost prev = out@;
            out.push(v);
            proof {
                assert(contents_of(out@) =~= contents_of(prev).push(json_contents(v)));
                assert(calls_view(acts@).subrange(0, i + 1) =~= calls_view(acts@).subrange(0, i as int).push(acts@[i as int]@));
            }
            i = i + 1;
        }
        proof {
            assert(calls_view(acts@).subrange(0, i as int) =~= calls_view(acts@));
        }
        json_array(out)
    }

    fn exprs_to_json(es: &[Expression]) -> (r: serde_json::Value)
        ensures
            json_contents(r) == exprs_json(exprs_view(es@)),
    {
        let mut out: Vec<serde_json::Value> = Vec::new();
        let mut i: usize = 0;
        while i < es.len()
            invariant
                i <= es@.len(),
                contents_of(out@) =~= exprs_view(es@).subrange(0, i as int).map_values(|e: ExprV| expr_json(e)),
            decreases es@.len() - i,
        {
            let v = Self::expression_to_json(&es[i]);
            let ghost prev = out@;
            out.push(v);
            proof {
                assert(contents_of(out@) =~= contents_of(prev).push(json_contents(v)));
                assert(exprs_view(es@).subrange(0, i + 1) =~= exprs_view(es@).subrange(0, i as int).push(es@[i as int]@));
            }
            i = i + 1;
        }
        proof {
            assert(exprs_view(es@).subrange(0, i as int) =~= exprs_view(es@));
        }
        json_array(out)
    }

    fn statement_to_json(statement: &Statement) -> (r: serde_json::Value)
        ensures
            json_contents(r) == stmt_json(stmt_view(*statement)),
    {
        let mut m = json_map_new();
        match statement {
            Statement::Match(ms) => {
                json_map_insert(&mut m, "type".to_string(), jstr("match"));
                json_map_insert(&mut m, "case_insensitive".to_string(), json_bool(ms.case_insensitive));
                json_map_insert(&mut m, "patterns".to_string(), Self::match_list_to_json(&ms.match_list));
                json_map_insert(&mut m, "actions".to_string(), Self::actions_to_json(ms.actions.as_slice()));
            },
            Statement::When(ws) => {
                json_map_insert(&mut m, "type".to_string(), jstr("when"));
                json_map_insert(&mut m, "patterns".to_string(), Self::match_list_to_json(&ws.match_list));
                json_map_insert(&mut m, "actions".to_string(), Self::actions_to_json(ws.actions.as_slice()));
            },
            Statement::Skip(ss) => {
                json_map_insert(&mut m, "type".to_string(), jstr("skip"));
                json_map_insert(&mut m, "pattern".to_string(), Self::expression_to_json(&ss.pattern));
            },
            Statement::Action(fc) => {
                json_map_insert(&mut m, "type".to_string(), jstr("action"));
                json_map_insert(&mut m, "name".to_string(), json_string(fc.name.clone()));
                json_map_insert(&mut m, "args".to_string(), Self::exprs_to_json(fc.args.as_slice()));
            },
        }
        proof {
            assert(json_map_contents(m) =~= (match stmt_json(stmt_view(*statement)) {
                JsonV::Obj(x) => x,
                _ => Map::empty(),
            }));
        }
        json_object(m)
    }

    fn match_list_to_json(ml: &MatchList) -> (r: serde_json::Value)
        ensures
            json_contents(r) == alts_json(alts_view(ml.alternatives@)),
    {
        let ghost av = alts_view(ml.alternatives@);
        let mut out: Vec<serde_json::Value> = Vec::new();
        let mut i: usize = 0;
        while i < ml.alternatives.len()
            invariant
                i <= ml.alternatives@.len(),
                av == alts_view(ml.alternatives@),
                contents_of(out@) =~= av.subrange(0, i as int).map_values(
                    |a: AltV| obj2_json("expressions"@, exprs_json(a.0), "flags"@, JsonV::Int(a.1 as i128)),
                ),
            decreases ml.alternatives@.len() - i,
        {
            let fl = &ml.alternatives[i];
            let v = obj2("expressions", Self::exprs_to_json(fl.expressions.as_slice()), "flags", json_u64(fl.flags as u64));
            let ghost prev = out@;
            out.push(v);
            proof {
                assert(contents_of(out@) =~= contents_of(prev).push(json_contents(v)));
                assert(av[i as int] == (exprs_view(fl.expressions@), fl.flags));
                assert(av.subrange(0, i + 1) =~= av.subrange(0, i as int).push(av[i as int]));
            }
            i = i + 1;
        }
        proof {
            assert(av.subrange(0, i as int) =~= av);
        }
        json_array(out)
    }

    fn expression_to_json(e: &Expression) -> (r: serde_json::Value)
        ensures
            json_contents(r) == expr_json(e@),
    {
        match e {
            Expression::String(s) => obj2("type", jstr("string"), "value", json_string(s.clone())),
            Expression::Regex(r) => obj2("type", jstr("regex"), "value", json_string(r.clone())),
            Expression::Variable(v) => obj2("type", jstr("variable"), "value", json_string(v.clone())),
            Expression::Number(n) => obj2("type", jstr("number"), "value", json_i64(*n)),
            Expression::Capture(i) => obj2("type", jstr("capture"), "index", json_u64(*i as u64)),
            Expression::CaptureName(n) => obj2("type", jstr("capture_name"), "name", json_string(n.clone())),
        }
    }

    fn action_to_json(call: &FunctionCall) -> (r: serde_json::Value)
        ensures
            json_contents(r) == call_json(call@),
    {
        let mut m = json_map_new();
        json_map_insert(&mut m, "type".to_string(), jstr("call"));
        json_map_insert(&mut m, "name".to_string(), json_string(call.name.clone()));
        json_map_insert(&mut m, "args".to_string(), Self::exprs_to_json(call.args.as_slice()));
        proof {
            assert(json_map_contents(m) =~= (match call_json(call@) {
                JsonV::Obj(x) => x,
                _ => Map::empty(),
            }));
        }
        json_object(m)
    }
}

} // verus!
