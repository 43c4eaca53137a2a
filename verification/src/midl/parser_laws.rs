//! What parsing is for: a document written out as tokens parses back to that very document.
//!
//! The functions here write syntax trees out as token kinds, independently of the grammar
//! rules, and the laws say that each rule reads back exactly what was written.
use vstd::prelude::*;
use crate::midl::ast::{
    DiagnosticModel, DocumentModel, EnumModel, EnumVariantModel, FieldModel, FunctionModel, ServiceItemModel,
    ServiceModel, StoreModel, TypeAliasModel, TypeModel,
};
use crate::midl::parser::{
    alias_rule, array_suffix_rule, docs_rule, document_rule, enum_rule, field_rule, fields_rule, function_rule,
    ident_rule, is_keyword, is_symbol_at, item_rule, items_rule, names_rule, parse_model, service_rule,
    skip_separator, store_rule,
    tuple_items_rule, type_rule, variants_rule,
};
use crate::midl::tokenizer::{TokenKindModel, TokenModel};

verus! {

/// The tokens of `s` from `i` on have the kinds `ks`.
pub open spec fn holds(s: Seq<TokenModel>, i: int, ks: Seq<TokenKindModel>) -> bool {
    &&& 0 <= i
    &&& i + ks.len() <= s.len()
    &&& forall|j: int| 0 <= j < ks.len() ==> s[i + j].kind == #[trigger] ks[j]
}

/// Tokens that hold `a + b` hold `a`, and `b` right after it.
pub proof fn lemma_holds_split(s: Seq<TokenModel>, i: int, a: Seq<TokenKindModel>, b: Seq<TokenKindModel>)
    requires
        holds(s, i, a + b),
    ensures
        holds(s, i, a),
        holds(s, i + a.len(), b),
{
    assert forall|j: int| 0 <= j < a.len() implies s[i + j].kind == #[trigger] a[j] by {
        assert((a + b)[j] == a[j]);
    }
    assert forall|j: int| 0 <= j < b.len() implies s[i + a.len() + j].kind == #[trigger] b[j] by {
        assert((a + b)[a.len() + j] == b[j]);
    }
}

/// A type that can be written out and read back: named types are not reserved words and do
/// not take the name `AnonymousStore`, which introduces an anonymous store type.
pub open spec fn type_ok(t: TypeModel) -> bool
    decreases t,
{
    match t {
        TypeModel::Named(n) => !is_keyword(n) && n != "AnonymousStore"@,
        TypeModel::Void => true,
        TypeModel::Array(inner) => type_ok(*inner),
        TypeModel::Tuple(items) => items_ok(items),
        TypeModel::AnonymousStore(inner) => type_ok(*inner),
    }
}

/// Every type of `items` can be written out and read back.
pub open spec fn items_ok(items: Seq<TypeModel>) -> bool
    decreases items,
{
    if items.len() == 0 {
        true
    } else {
        type_ok(items[0]) && items_ok(items.subrange(1, items.len() as int))
    }
}

/// A type written out: its name, `void`, the element type and `[` `]`, the items in
/// parentheses separated by commas, or `AnonymousStore` `<` type `>`.
pub open spec fn type_tokens(t: TypeModel) -> Seq<TokenKindModel>
    decreases t,
{
    match t {
        TypeModel::Named(n) => seq![TokenKindModel::Ident(n)],
        TypeModel::Void => seq![TokenKindModel::Ident("void"@)],
        TypeModel::Array(inner) => type_tokens(*inner) + seq![TokenKindModel::Symbol('['), TokenKindModel::Symbol(']')],
        TypeModel::Tuple(items) => if items.len() == 0 {
            seq![TokenKindModel::Symbol('('), TokenKindModel::Symbol(')')]
        } else {
            seq![TokenKindModel::Symbol('(')] + tuple_tokens(items)
        },
        TypeModel::AnonymousStore(inner) => seq![TokenKindModel::Ident("AnonymousStore"@), TokenKindModel::Symbol('<')]
            + type_tokens(*inner) + seq![TokenKindModel::Symbol('>')],
    }
}

/// The items of a tuple written out, separated by commas, and the closing `)`.
pub open spec fn tuple_tokens(items: Seq<TypeModel>) -> Seq<TokenKindModel>
    decreases items,
{
    if items.len() == 0 {
        Seq::empty()
    } else if items.len() == 1 {
        type_tokens(items[0]) + seq![TokenKindModel::Symbol(')')]
    } else {
        type_tokens(items[0]) + seq![TokenKindModel::Symbol(',')] + tuple_tokens(items.subrange(1, items.len() as int))
    }
}

/// A written-out type starts with a word or `(`.
pub proof fn lemma_type_tokens_start(t: TypeModel)
    ensures
        type_tokens(t).len() >= 1,
        type_tokens(t)[0] is Ident || type_tokens(t)[0] == TokenKindModel::Symbol('('),
    decreases t,
{
    match t {
        TypeModel::Array(inner) => {
            lemma_type_tokens_start(*inner);
            assert((type_tokens(*inner) + seq![TokenKindModel::Symbol('['), TokenKindModel::Symbol(']')])[0] == type_tokens(*inner)[0]);
        },
        _ => {},
    }
}

/// `AnonymousStore` is neither reserved nor `void`.
pub proof fn lemma_anonymous_store_word()
    ensures
        !is_keyword("AnonymousStore"@),
        "AnonymousStore"@ != "void"@,
{
    reveal_strlit("AnonymousStore");
    reveal_strlit("service");
    reveal_strlit("store");
    reveal_strlit("public");
    reveal_strlit("type");
    reveal_strlit("enum");
    reveal_strlit("fn");
    reveal_strlit("error");
    reveal_strlit("void");
    assert("AnonymousStore"@.len() == 14);
    assert("service"@.len() == 7);
    assert("store"@.len() == 5);
    assert("public"@.len() == 6);
    assert("type"@.len() == 4);
    assert("enum"@.len() == 4);
    assert("fn"@.len() == 2);
    assert("error"@.len() == 5);
    assert("void"@.len() == 4);
}

/// After a type written out at `i`, the type rule stands where the type's own tokens end,
/// with exactly that type read, and only array suffixes left to take.
pub proof fn lemma_type_reads_back(s: Seq<TokenModel>, i: int, t: TypeModel)
    requires
        type_ok(t),
        holds(s, i, type_tokens(t)),
    ensures
        type_rule(s, i) == array_suffix_rule(s, t, i + type_tokens(t).len()),
    decreases t,
{
    let ks = type_tokens(t);
    assert(s[i].kind == ks[0]) by {
        lemma_type_tokens_start(t);
    }
    match t {
        TypeModel::Named(n) => {
            assert(type_rule(s, i) == array_suffix_rule(s, t, i + 1));
        },
        TypeModel::Void => {
            assert(type_rule(s, i) == array_suffix_rule(s, t, i + 1));
        },
        TypeModel::Array(inner) => {
            let a = type_tokens(*inner);
            let b = seq![TokenKindModel::Symbol('['), TokenKindModel::Symbol(']')];
            lemma_holds_split(s, i, a, b);
            lemma_type_reads_back(s, i, *inner);
            assert(b[0] == TokenKindModel::Symbol('[') && b[1] == TokenKindModel::Symbol(']'));
            assert(s[i + a.len()].kind == b[0]);
            assert(s[i + a.len() + 1].kind == b[1]);
            assert(array_suffix_rule(s, *inner, i + a.len()) == array_suffix_rule(s, TypeModel::Array(Box::new(*inner)), i + a.len() + 2));
            assert(ks.len() == a.len() + 2);
        },
        TypeModel::Tuple(items) => {
            if items.len() > 0 {
                let a = seq![TokenKindModel::Symbol('(')];
                let b = tuple_tokens(items);
                lemma_holds_split(s, i, a, b);
                lemma_type_tokens_start(items[0]);
                assert(b[0] == type_tokens(items[0])[0]);
                assert(s[i + 1].kind == b[0]);
                lemma_tuple_reads_back(s, i + 1, items);
                assert(ks.len() == 1 + b.len());
                assert(type_rule(s, i) == array_suffix_rule(s, t, i + ks.len()));
            } else {
                assert(items =~= Seq::<TypeModel>::empty());
                assert(s[i + 1].kind == ks[1]);
                assert(type_rule(s, i) == array_suffix_rule(s, t, i + ks.len()));
            }
        },
        TypeModel::AnonymousStore(inner) => {
            let a = seq![TokenKindModel::Ident("AnonymousStore"@), TokenKindModel::Symbol('<')];
            let b = type_tokens(*inner);
            let c = seq![TokenKindModel::Symbol('>')];
            lemma_holds_split(s, i, a + b, c);
            lemma_holds_split(s, i, a, b);
            assert(s[i + 1].kind == a[1]);
            lemma_type_reads_back(s, i + 2, *inner);
            assert(s[i + 2 + b.len()].kind == c[0]);
            lemma_anonymous_store_word();
            assert(ks.len() == 2 + b.len() + 1);
            assert(type_rule(s, i) == array_suffix_rule(s, t, i + ks.len()));
        },
    }
}

/// The items of a tuple written out at `i` read back, through the closing `)`.
pub proof fn lemma_tuple_reads_back(s: Seq<TokenModel>, i: int, items: Seq<TypeModel>)
    requires
        items_ok(items),
        items.len() > 0,
        holds(s, i, tuple_tokens(items)),
    ensures
        tuple_items_rule(s, i) == Ok::<(Seq<TypeModel>, int), crate::midl::ast::DiagnosticModel>((items, i + tuple_tokens(items).len())),
    decreases items,
{
    let first = type_tokens(items[0]);
    lemma_type_tokens_start(items[0]);
    if items.len() == 1 {
        let c = seq![TokenKindModel::Symbol(')')];
        lemma_holds_split(s, i, first, c);
        lemma_type_reads_back(s, i, items[0]);
        assert(s[i + first.len()].kind == c[0]);
        assert(seq![items[0]] =~= items);
    } else {
        let rest = items.subrange(1, items.len() as int);
        let c = seq![TokenKindModel::Symbol(',')];
        lemma_holds_split(s, i, first + c, tuple_tokens(rest));
        lemma_holds_split(s, i, first, c);
        lemma_type_reads_back(s, i, items[0]);
        assert(s[i + first.len()].kind == c[0]);
        lemma_tuple_reads_back(s, i + first.len() + 1, rest);
        assert(seq![items[0]] + rest =~= items);
    }
}

/// A type written out reads back as that type, when no `[` follows it.
pub proof fn law_type_reads_back(s: Seq<TokenModel>, i: int, t: TypeModel)
    requires
        type_ok(t),
        holds(s, i, type_tokens(t)),
        !(i + type_tokens(t).len() < s.len() && is_symbol_at(s, i + type_tokens(t).len(), '[')),
    ensures
        type_rule(s, i) == Ok::<(TypeModel, int), crate::midl::ast::DiagnosticModel>((t, i + type_tokens(t).len())),
{
    lemma_type_reads_back(s, i, t);
}


/// Documentation comments written out, one token each.
pub open spec fn docs_tokens(ds: Seq<Seq<char>>) -> Seq<TokenKindModel> {
    ds.map_values(|d: Seq<char>| TokenKindModel::Doc(d))
}

/// Documentation comments written out at `i`, followed by a token that is not one, read back.
pub proof fn lemma_docs_read_back(s: Seq<TokenModel>, i: int, ds: Seq<Seq<char>>)
    requires
        holds(s, i, docs_tokens(ds)),
        i + ds.len() < s.len(),
        !(s[i + ds.len()].kind is Doc),
    ensures
        docs_rule(s, i) == (ds, i + ds.len()),
    decreases ds.len(),
{
    if ds.len() > 0 {
        let rest = ds.drop_first();
        assert(docs_tokens(ds)[0] == TokenKindModel::Doc(ds[0]));
        assert(holds(s, i + 1, docs_tokens(rest))) by {
            assert forall|j: int| 0 <= j < docs_tokens(rest).len() implies s[i + 1 + j].kind == #[trigger] docs_tokens(rest)[j] by {
                assert(docs_tokens(ds)[j + 1] == docs_tokens(rest)[j]);
            }
        }
        lemma_docs_read_back(s, i + 1, rest);
        assert(seq![ds[0]] + rest =~= ds);
    } else {
        assert(ds =~= Seq::<Seq<char>>::empty());
    }
}

/// A name that can be written out and read back: not a reserved word.
pub open spec fn name_ok(n: Seq<char>) -> bool {
    !is_keyword(n)
}

/// What may stand after an entry of a list: nothing, `,` or `;`.
pub open spec fn sep_ok(sep: Seq<TokenKindModel>) -> bool {
    sep.len() == 0 || sep == seq![TokenKindModel::Symbol(',')] || sep == seq![TokenKindModel::Symbol(';')]
}

/// A token after which nothing more is taken into the type or function before it: not `[`
/// (an array level) and not `?` (an error clause).
pub open spec fn ends_cleanly(k: TokenKindModel) -> bool {
    k != TokenKindModel::Symbol('[') && k != TokenKindModel::Symbol('?')
}

/// A token that can start what follows a separator: it ends what came before, is no separator
/// itself, and opens no field list.
pub open spec fn fresh_start(k: TokenKindModel) -> bool {
    &&& ends_cleanly(k)
    &&& k != TokenKindModel::Symbol(',')
    &&& k != TokenKindModel::Symbol(';')
    &&& k != TokenKindModel::Symbol('{')
}

/// After a separator written at `m` and something fresh after it, the separator is skipped
/// and the token at `m` ends what came before.
proof fn lemma_after_sep(s: Seq<TokenModel>, m: int, sep: Seq<TokenKindModel>, rest: Seq<TokenKindModel>)
    requires
        sep_ok(sep),
        holds(s, m, sep + rest),
        rest.len() > 0,
        fresh_start(rest[0]),
    ensures
        m < s.len(),
        skip_separator(s, m) == m + sep.len(),
        ends_cleanly(s[m].kind),
        s[m].kind != TokenKindModel::Symbol('{'),
        holds(s, m + sep.len(), rest),
{
    lemma_holds_split(s, m, sep, rest);
    assert(s[m + sep.len()].kind == rest[0]);
    if sep.len() > 0 {
        assert(s[m].kind == sep[0]);
    }
}

/// A field that can be written out and read back.
pub open spec fn field_ok(f: FieldModel) -> bool {
    name_ok(f.name) && type_ok(f.ty)
}

/// Every field of `fs` can be written out and read back.
pub open spec fn fields_ok(fs: Seq<FieldModel>) -> bool {
    forall|k: int| 0 <= k < fs.len() ==> field_ok(#[trigger] fs[k])
}

/// A field written out: name `:` type.
pub open spec fn field_tokens(f: FieldModel) -> Seq<TokenKindModel> {
    seq![TokenKindModel::Ident(f.name), TokenKindModel::Symbol(':')] + type_tokens(f.ty)
}

/// Fields written out, each followed by `sep`.
pub open spec fn fields_tokens(fs: Seq<FieldModel>, sep: Seq<TokenKindModel>) -> Seq<TokenKindModel>
    decreases fs.len(),
{
    if fs.len() == 0 {
        Seq::empty()
    } else {
        field_tokens(fs[0]) + sep + fields_tokens(fs.drop_first(), sep)
    }
}

/// Fields written out at `i`, whatever the separator, and closed by `close` read back,
/// through `close`.
pub proof fn law_fields_read_back(s: Seq<TokenModel>, i: int, fs: Seq<FieldModel>, sep: Seq<TokenKindModel>, close: char)
    requires
        fields_ok(fs),
        sep_ok(sep),
        fresh_start(TokenKindModel::Symbol(close)),
        holds(s, i, fields_tokens(fs, sep) + seq![TokenKindModel::Symbol(close)]),
    ensures
        fields_rule(s, i, close) == Ok::<(Seq<FieldModel>, int), DiagnosticModel>((fs, i + fields_tokens(fs, sep).len() + 1)),
    decreases fs.len(),
{
    let c = seq![TokenKindModel::Symbol(close)];
    if fs.len() == 0 {
        assert(fields_tokens(fs, sep) + c =~= c);
        assert(s[i].kind == c[0]);
        assert(fs =~= Seq::<FieldModel>::empty());
    } else {
        let f = fs[0];
        let rest = fs.drop_first();
        let ft = field_tokens(f);
        let r = fields_tokens(rest, sep) + c;
        assert(fields_tokens(fs, sep) + c =~= ft + (sep + r));
        lemma_holds_split(s, i, ft, sep + r);
        assert(fresh_start(r[0])) by {
            if rest.len() > 0 {
                assert(r[0] == field_tokens(rest[0])[0]);
            } else {
                assert(r[0] == c[0]);
            }
        }
        lemma_after_sep(s, i + ft.len(), sep, r);
        let head = seq![TokenKindModel::Ident(f.name), TokenKindModel::Symbol(':')];
        lemma_holds_split(s, i, head, type_tokens(f.ty));
        assert(field_ok(fs[0]));
        assert(s[i].kind == head[0]);
        assert(s[i + 1].kind == head[1]);
        lemma_type_reads_back(s, i + 2, f.ty);
        assert(field_rule(s, i) == Ok::<(FieldModel, int), DiagnosticModel>((f, i + ft.len())));
        assert(fields_ok(rest)) by {
            assert forall|k: int| 0 <= k < rest.len() implies field_ok(#[trigger] rest[k]) by {
                assert(rest[k] == fs[k + 1]);
            }
        }
        law_fields_read_back(s, i + ft.len() + sep.len(), rest, sep, close);
        assert(seq![f] + rest =~= fs);
    }
}

/// Names written out, each followed by `sep`.
pub open spec fn names_tokens(ns: Seq<Seq<char>>, sep: Seq<TokenKindModel>) -> Seq<TokenKindModel>
    decreases ns.len(),
{
    if ns.len() == 0 {
        Seq::empty()
    } else {
        seq![TokenKindModel::Ident(ns[0])] + sep + names_tokens(ns.drop_first(), sep)
    }
}

/// Names written out at `i`, whatever the separator, and closed by `}` read back, through
/// the `}`.
pub proof fn law_names_read_back(s: Seq<TokenModel>, i: int, ns: Seq<Seq<char>>, sep: Seq<TokenKindModel>)
    requires
        forall|k: int| 0 <= k < ns.len() ==> name_ok(#[trigger] ns[k]),
        sep_ok(sep),
        holds(s, i, names_tokens(ns, sep) + seq![TokenKindModel::Symbol('}')]),
    ensures
        names_rule(s, i) == Ok::<(Seq<Seq<char>>, int), DiagnosticModel>((ns, i + names_tokens(ns, sep).len() + 1)),
    decreases ns.len(),
{
    let c = seq![TokenKindModel::Symbol('}')];
    if ns.len() == 0 {
        assert(names_tokens(ns, sep) + c =~= c);
        assert(s[i].kind == c[0]);
        assert(ns =~= Seq::<Seq<char>>::empty());
    } else {
        let rest = ns.drop_first();
        let head = seq![TokenKindModel::Ident(ns[0])];
        let r = names_tokens(rest, sep) + c;
        assert(names_tokens(ns, sep) + c =~= head + (sep + r));
        lemma_holds_split(s, i, head, sep + r);
        assert(fresh_start(r[0])) by {
            if rest.len() > 0 {
                assert(r[0] == TokenKindModel::Ident(rest[0]));
            } else {
                assert(r[0] == c[0]);
            }
        }
        lemma_after_sep(s, i + 1, sep, r);
        assert(s[i].kind == head[0]);
        assert(name_ok(ns[0]));
        assert forall|k: int| 0 <= k < rest.len() implies name_ok(#[trigger] rest[k]) by {
            assert(rest[k] == ns[k + 1]);
        }
        law_names_read_back(s, i + 1 + sep.len(), rest, sep);
        assert(seq![ns[0]] + rest =~= ns);
    }
}

/// A function that can be written out and read back.
pub open spec fn function_ok(f: FunctionModel) -> bool {
    &&& name_ok(f.name)
    &&& fields_ok(f.params)
    &&& type_ok(f.returns)
    &&& forall|k: int| 0 <= k < f.errors.len() ==> name_ok(#[trigger] f.errors[k])
}

/// The error clause of a function written out: nothing without errors, otherwise
/// `?` `(` `error` `{` names `}` `)`.
pub open spec fn errors_tokens(es: Seq<Seq<char>>, sep: Seq<TokenKindModel>) -> Seq<TokenKindModel> {
    if es.len() == 0 {
        Seq::empty()
    } else {
        seq![
            TokenKindModel::Symbol('?'),
            TokenKindModel::Symbol('('),
            TokenKindModel::Ident("error"@),
            TokenKindModel::Symbol('{'),
        ] + names_tokens(es, sep) + seq![TokenKindModel::Symbol('}'), TokenKindModel::Symbol(')')]
    }
}

/// A function written out after `fn`: name `(` parameters `)` `->` type, then its errors.
pub open spec fn function_tokens(f: FunctionModel, sep: Seq<TokenKindModel>) -> Seq<TokenKindModel> {
    seq![TokenKindModel::Ident(f.name), TokenKindModel::Symbol('(')] + fields_tokens(f.params, sep) + seq![
        TokenKindModel::Symbol(')'),
        TokenKindModel::Arrow,
    ] + type_tokens(f.returns) + errors_tokens(f.errors, sep)
}

/// A function written out at `i` and followed by a token that ends it reads back, with its
/// documentation comments, parameters, return type and errors.
pub proof fn law_function_reads_back(s: Seq<TokenModel>, i: int, f: FunctionModel, sep: Seq<TokenKindModel>, next: TokenKindModel)
    requires
        function_ok(f),
        sep_ok(sep),
        ends_cleanly(next),
        holds(s, i, function_tokens(f, sep) + seq![next]),
    ensures
        function_rule(s, i, f.docs) == Ok::<(FunctionModel, int), DiagnosticModel>((f, i + function_tokens(f, sep).len())),
{
    let a = seq![TokenKindModel::Ident(f.name), TokenKindModel::Symbol('(')];
    let p = fields_tokens(f.params, sep);
    let b = seq![TokenKindModel::Symbol(')'), TokenKindModel::Arrow];
    let r = type_tokens(f.returns);
    let e = errors_tokens(f.errors, sep);
    let c = seq![next];
    lemma_holds_split(s, i, a + p + b + r + e, c);
    lemma_holds_split(s, i, a + p + b + r, e);
    lemma_holds_split(s, i, a + p + b, r);
    lemma_holds_split(s, i, a + p, b);
    lemma_holds_split(s, i, a, p);
    assert(s[i].kind == a[0]);
    assert(s[i + 1].kind == a[1]);
    let k = i + 2 + p.len();
    assert(holds(s, i + 2, p + seq![TokenKindModel::Symbol(')')])) by {
        assert forall|j: int| 0 <= j < (p + seq![TokenKindModel::Symbol(')')]).len() implies s[i + 2 + j].kind == #[trigger] (p + seq![TokenKindModel::Symbol(')')])[j] by {
            if j == p.len() {
                assert(s[k].kind == b[0]);
            } else {
                assert(p[j] == (p + seq![TokenKindModel::Symbol(')')])[j]);
            }
        }
    }
    law_fields_read_back(s, i + 2, f.params, sep, ')');
    assert(s[k + 1].kind == b[1]);
    lemma_type_reads_back(s, k + 2, f.returns);
    let m = k + 2 + r.len();
    if f.errors.len() == 0 {
        assert(e =~= Seq::<TokenKindModel>::empty());
        assert(s[m].kind == c[0]);
        assert(f.errors =~= Seq::<Seq<char>>::empty());
    } else {
        let e1 = seq![
            TokenKindModel::Symbol('?'),
            TokenKindModel::Symbol('('),
            TokenKindModel::Ident("error"@),
            TokenKindModel::Symbol('{'),
        ];
        let e2 = names_tokens(f.errors, sep);
        let e3 = seq![TokenKindModel::Symbol('}'), TokenKindModel::Symbol(')')];
        assert(e == e1 + e2 + e3);
        lemma_holds_split(s, m, e1 + e2, e3);
        lemma_holds_split(s, m, e1, e2);
        assert(s[m].kind == e1[0]);
        assert(s[m + 1].kind == e1[1]);
        assert(s[m + 2].kind == e1[2]);
        assert(s[m + 3].kind == e1[3]);
        assert(holds(s, m + 4, e2 + seq![TokenKindModel::Symbol('}')])) by {
            assert forall|j: int| 0 <= j < (e2 + seq![TokenKindModel::Symbol('}')]).len() implies s[m + 4 + j].kind == #[trigger] (e2 + seq![TokenKindModel::Symbol('}')])[j] by {
                if j == e2.len() {
                    assert(s[m + 4 + e2.len()].kind == e3[0]);
                } else {
                    assert(e2[j] == (e2 + seq![TokenKindModel::Symbol('}')])[j]);
                }
            }
        }
        law_names_read_back(s, m + 4, f.errors, sep);
        assert(s[m + 4 + e2.len() + 1].kind == e3[1]);
    }
}

/// An alias that can be written out and read back.
pub open spec fn alias_ok(a: TypeAliasModel) -> bool {
    name_ok(a.name) && type_ok(a.ty)
}

/// An alias written out after `type`: name `=` type.
pub open spec fn alias_tokens(a: TypeAliasModel) -> Seq<TokenKindModel> {
    seq![TokenKindModel::Ident(a.name), TokenKindModel::Symbol('=')] + type_tokens(a.ty)
}

/// An alias written out at `i` and followed by a token that ends it reads back: its type is
/// the type written, array levels and all.
pub proof fn law_alias_reads_back(s: Seq<TokenModel>, i: int, a: TypeAliasModel, next: TokenKindModel)
    requires
        alias_ok(a),
        ends_cleanly(next),
        holds(s, i, alias_tokens(a) + seq![next]),
    ensures
        alias_rule(s, i, a.docs) == Ok::<(TypeAliasModel, int), DiagnosticModel>((a, i + alias_tokens(a).len())),
{
    let head = seq![TokenKindModel::Ident(a.name), TokenKindModel::Symbol('=')];
    let c = seq![next];
    lemma_holds_split(s, i, alias_tokens(a), c);
    lemma_holds_split(s, i, head, type_tokens(a.ty));
    assert(s[i].kind == head[0]);
    assert(s[i + 1].kind == head[1]);
    lemma_type_reads_back(s, i + 2, a.ty);
    assert(s[i + alias_tokens(a).len()].kind == c[0]);
}

/// A store that can be written out and read back.
pub open spec fn store_ok(st: StoreModel) -> bool {
    name_ok(st.name) && type_ok(st.ty)
}

/// A store written out after `store`: name `:` type.
pub open spec fn store_tokens(st: StoreModel) -> Seq<TokenKindModel> {
    seq![TokenKindModel::Ident(st.name), TokenKindModel::Symbol(':')] + type_tokens(st.ty)
}

/// A store written out at `i` and followed by a token that ends it reads back, with its
/// documentation comments and visibility.
pub proof fn law_store_reads_back(s: Seq<TokenModel>, i: int, st: StoreModel, next: TokenKindModel)
    requires
        store_ok(st),
        ends_cleanly(next),
        holds(s, i, store_tokens(st) + seq![next]),
    ensures
        store_rule(s, i, st.docs, st.public) == Ok::<(StoreModel, int), DiagnosticModel>((st, i + store_tokens(st).len())),
{
    let head = seq![TokenKindModel::Ident(st.name), TokenKindModel::Symbol(':')];
    let c = seq![next];
    lemma_holds_split(s, i, store_tokens(st), c);
    lemma_holds_split(s, i, head, type_tokens(st.ty));
    assert(s[i].kind == head[0]);
    assert(s[i + 1].kind == head[1]);
    lemma_type_reads_back(s, i + 2, st.ty);
    assert(s[i + store_tokens(st).len()].kind == c[0]);
}

/// An enum variant that can be written out and read back.
pub open spec fn variant_ok(v: EnumVariantModel) -> bool {
    name_ok(v.name) && fields_ok(v.fields)
}

/// The fields of a variant written out: nothing without fields, otherwise `{` fields `}`.
pub open spec fn variant_fields_tokens(fs: Seq<FieldModel>, sep: Seq<TokenKindModel>) -> Seq<TokenKindModel> {
    if fs.len() == 0 {
        Seq::empty()
    } else {
        seq![TokenKindModel::Symbol('{')] + fields_tokens(fs, sep) + seq![TokenKindModel::Symbol('}')]
    }
}

/// An enum variant written out: its documentation comments, its name, its fields, `sep`.
pub open spec fn variant_tokens(v: EnumVariantModel, sep: Seq<TokenKindModel>) -> Seq<TokenKindModel> {
    docs_tokens(v.docs) + seq![TokenKindModel::Ident(v.name)] + variant_fields_tokens(v.fields, sep) + sep
}

/// Enum variants written out one after the other.
pub open spec fn variants_tokens(vs: Seq<EnumVariantModel>, sep: Seq<TokenKindModel>) -> Seq<TokenKindModel>
    decreases vs.len(),
{
    if vs.len() == 0 {
        Seq::empty()
    } else {
        variant_tokens(vs[0], sep) + variants_tokens(vs.drop_first(), sep)
    }
}

/// Documentation comments written out and then a name start with a comment or the name.
proof fn lemma_docs_then_name_start(ds: Seq<Seq<char>>, rest: Seq<TokenKindModel>)
    requires
        rest.len() > 0,
        rest[0] is Ident,
    ensures
        (docs_tokens(ds) + rest).len() > 0,
        (docs_tokens(ds) + rest)[0] is Ident || (docs_tokens(ds) + rest)[0] is Doc,
{
    if ds.len() > 0 {
        assert((docs_tokens(ds) + rest)[0] == docs_tokens(ds)[0]);
    } else {
        assert((docs_tokens(ds) + rest)[0] == rest[0]);
    }
}

/// Enum variants written out at `i`, whatever the separator, and closed by `}` read back, each
/// with its documentation comments and its fields, through the `}`.
pub proof fn law_variants_read_back(s: Seq<TokenModel>, i: int, vs: Seq<EnumVariantModel>, sep: Seq<TokenKindModel>)
    requires
        forall|k: int| 0 <= k < vs.len() ==> variant_ok(#[trigger] vs[k]),
        sep_ok(sep),
        holds(s, i, variants_tokens(vs, sep) + seq![TokenKindModel::Symbol('}')]),
    ensures
        variants_rule(s, i, Seq::empty()) == Ok::<(Seq<EnumVariantModel>, int, Seq<Seq<char>>), DiagnosticModel>(
            (vs, i + variants_tokens(vs, sep).len() + 1, Seq::empty()),
        ),
    decreases vs.len(),
{
    let c = seq![TokenKindModel::Symbol('}')];
    if vs.len() == 0 {
        assert(variants_tokens(vs, sep) + c =~= c);
        assert(s[i].kind == c[0]);
        assert(vs =~= Seq::<EnumVariantModel>::empty());
    } else {
        let v = vs[0];
        let rest = vs.drop_first();
        let d = docs_tokens(v.docs);
        let n = seq![TokenKindModel::Ident(v.name)];
        let fl = variant_fields_tokens(v.fields, sep);
        let r = variants_tokens(rest, sep) + c;
        assert(variants_tokens(vs, sep) + c =~= d + n + fl + (sep + r));
        lemma_holds_split(s, i, d + n + fl, sep + r);
        lemma_holds_split(s, i, d + n, fl);
        lemma_holds_split(s, i, d, n);
        assert(fresh_start(r[0])) by {
            if rest.len() > 0 {
                let w = rest[0];
                lemma_docs_then_name_start(w.docs, seq![TokenKindModel::Ident(w.name)] + variant_fields_tokens(w.fields, sep) + sep);
                assert(variant_tokens(w, sep) == docs_tokens(w.docs) + (seq![TokenKindModel::Ident(w.name)] + variant_fields_tokens(w.fields, sep) + sep));
                assert(r[0] == variant_tokens(w, sep)[0]);
            } else {
                assert(r[0] == c[0]);
            }
        }
        let j = i + d.len();
        assert(s[j].kind == n[0]);
        assert(d.len() == v.docs.len());
        lemma_docs_read_back(s, i, v.docs);
        assert(variant_ok(vs[0]));
        if d.len() > 0 {
            assert(s[i].kind == d[0]);
        }
        assert(Seq::<Seq<char>>::empty() + v.docs =~= v.docs);
        let k = j + 1;
        let m = k + fl.len();
        lemma_after_sep(s, m, sep, r);
        if v.fields.len() == 0 {
            assert(fl =~= Seq::<TokenKindModel>::empty());
            assert(v.fields =~= Seq::<FieldModel>::empty());
        } else {
            let open = seq![TokenKindModel::Symbol('{')];
            assert(fl == open + (fields_tokens(v.fields, sep) + c));
            lemma_holds_split(s, k, open, fields_tokens(v.fields, sep) + c);
            assert(s[k].kind == open[0]);
            law_fields_read_back(s, k + 1, v.fields, sep, '}');
        }
        assert forall|x: int| 0 <= x < rest.len() implies variant_ok(#[trigger] rest[x]) by {
            assert(rest[x] == vs[x + 1]);
        }
        law_variants_read_back(s, m + sep.len(), rest, sep);
        assert(seq![EnumVariantModel { docs: Seq::<Seq<char>>::empty() + v.docs, name: v.name, fields: v.fields }] + rest =~= vs);
    }
}

/// An enum that can be written out and read back.
pub open spec fn enum_ok(e: EnumModel) -> bool {
    name_ok(e.name) && forall|k: int| 0 <= k < e.variants.len() ==> variant_ok(#[trigger] e.variants[k])
}

/// An enum written out after `enum`: name `{` variants `}`.
pub open spec fn enum_tokens(e: EnumModel, sep: Seq<TokenKindModel>) -> Seq<TokenKindModel> {
    seq![TokenKindModel::Ident(e.name), TokenKindModel::Symbol('{')] + variants_tokens(e.variants, sep) + seq![
        TokenKindModel::Symbol('}'),
    ]
}

/// An enum written out at `i` reads back, every variant with its fields.
pub proof fn law_enum_reads_back(s: Seq<TokenModel>, i: int, e: EnumModel, sep: Seq<TokenKindModel>)
    requires
        enum_ok(e),
        sep_ok(sep),
        holds(s, i, enum_tokens(e, sep)),
    ensures
        enum_rule(s, i, e.docs, Seq::empty()) == Ok::<(EnumModel, int, Seq<Seq<char>>), DiagnosticModel>(
            (e, i + enum_tokens(e, sep).len(), Seq::empty()),
        ),
{
    let head = seq![TokenKindModel::Ident(e.name), TokenKindModel::Symbol('{')];
    let c = seq![TokenKindModel::Symbol('}')];
    assert(enum_tokens(e, sep) =~= head + (variants_tokens(e.variants, sep) + c));
    lemma_holds_split(s, i, head, variants_tokens(e.variants, sep) + c);
    assert(s[i].kind == head[0]);
    assert(s[i + 1].kind == head[1]);
    law_variants_read_back(s, i + 2, e.variants, sep);
}

/// The documentation comments of a service item.
pub open spec fn item_docs(it: ServiceItemModel) -> Seq<Seq<char>> {
    match it {
        ServiceItemModel::TypeAlias(a) => a.docs,
        ServiceItemModel::Enum(e) => e.docs,
        ServiceItemModel::Store(st) => st.docs,
        ServiceItemModel::Function(f) => f.docs,
    }
}

/// A service item that can be written out and read back.
pub open spec fn item_ok(it: ServiceItemModel) -> bool {
    match it {
        ServiceItemModel::TypeAlias(a) => alias_ok(a),
        ServiceItemModel::Enum(e) => enum_ok(e),
        ServiceItemModel::Store(st) => store_ok(st),
        ServiceItemModel::Function(f) => function_ok(f),
    }
}

/// A service item written out without its documentation comments: `type` alias, `enum`
/// enum, `public`? `store` store, or `fn` function.
pub open spec fn item_body_tokens(it: ServiceItemModel, sep: Seq<TokenKindModel>) -> Seq<TokenKindModel> {
    match it {
        ServiceItemModel::TypeAlias(a) => seq![TokenKindModel::Ident("type"@)] + alias_tokens(a),
        ServiceItemModel::Enum(e) => seq![TokenKindModel::Ident("enum"@)] + enum_tokens(e, sep),
        ServiceItemModel::Store(st) => if st.public {
            seq![TokenKindModel::Ident("public"@), TokenKindModel::Ident("store"@)] + store_tokens(st)
        } else {
            seq![TokenKindModel::Ident("store"@)] + store_tokens(st)
        },
        ServiceItemModel::Function(f) => seq![TokenKindModel::Ident("fn"@)] + function_tokens(f, sep),
    }
}

/// A service item written out: its documentation comments, the item, `sep`.
pub open spec fn item_tokens(it: ServiceItemModel, sep: Seq<TokenKindModel>) -> Seq<TokenKindModel> {
    docs_tokens(item_docs(it)) + item_body_tokens(it, sep) + sep
}

/// Service items written out one after the other.
pub open spec fn items_tokens(items: Seq<ServiceItemModel>, sep: Seq<TokenKindModel>) -> Seq<TokenKindModel>
    decreases items.len(),
{
    if items.len() == 0 {
        Seq::empty()
    } else {
        item_tokens(items[0], sep) + items_tokens(items.drop_first(), sep)
    }
}

/// The words that open service items are different words.
proof fn lemma_item_words()
    ensures
        "type"@ != "enum"@,
        "type"@ != "public"@,
        "type"@ != "store"@,
        "type"@ != "fn"@,
        "enum"@ != "public"@,
        "enum"@ != "store"@,
        "enum"@ != "fn"@,
        "public"@ != "store"@,
        "public"@ != "fn"@,
        "store"@ != "fn"@,
{
    reveal_strlit("type");
    reveal_strlit("enum");
    reveal_strlit("public");
    reveal_strlit("store");
    reveal_strlit("fn");
    assert("type"@[0] != "enum"@[0]);
    assert("type"@.len() != "public"@.len());
    assert("type"@.len() != "store"@.len());
    assert("type"@.len() != "fn"@.len());
    assert("enum"@.len() != "public"@.len());
    assert("enum"@.len() != "store"@.len());
    assert("enum"@.len() != "fn"@.len());
    assert("public"@.len() != "store"@.len());
    assert("public"@.len() != "fn"@.len());
    assert("store"@.len() != "fn"@.len());
}

/// A service item written out at `i`, after its documentation comments, and followed by a
/// token that ends it, reads back with its documentation comments.
proof fn lemma_item_reads_back(s: Seq<TokenModel>, i: int, it: ServiceItemModel, sep: Seq<TokenKindModel>, next: TokenKindModel)
    requires
        item_ok(it),
        sep_ok(sep),
        ends_cleanly(next),
        holds(s, i, item_body_tokens(it, sep) + seq![next]),
    ensures
        item_rule(s, i, item_docs(it)) == Ok::<(ServiceItemModel, int, Seq<Seq<char>>), DiagnosticModel>(
            (it, i + item_body_tokens(it, sep).len(), Seq::empty()),
        ),
{
    lemma_item_words();
    let c = seq![next];
    lemma_holds_split(s, i, item_body_tokens(it, sep), c);
    match it {
        ServiceItemModel::TypeAlias(a) => {
            let w = seq![TokenKindModel::Ident("type"@)];
            assert(item_body_tokens(it, sep) + c =~= w + (alias_tokens(a) + c));
            lemma_holds_split(s, i, w, alias_tokens(a) + c);
            assert(s[i].kind == w[0]);
            law_alias_reads_back(s, i + 1, a, next);
        },
        ServiceItemModel::Enum(e) => {
            let w = seq![TokenKindModel::Ident("enum"@)];
            lemma_holds_split(s, i, w, enum_tokens(e, sep));
            assert(s[i].kind == w[0]);
            law_enum_reads_back(s, i + 1, e, sep);
        },
        ServiceItemModel::Store(st) => {
            if st.public {
                let w = seq![TokenKindModel::Ident("public"@), TokenKindModel::Ident("store"@)];
                assert(item_body_tokens(it, sep) + c =~= w + (store_tokens(st) + c));
                lemma_holds_split(s, i, w, store_tokens(st) + c);
                assert(s[i].kind == w[0]);
                assert(s[i + 1].kind == w[1]);
                law_store_reads_back(s, i + 2, st, next);
            } else {
                let w = seq![TokenKindModel::Ident("store"@)];
                assert(item_body_tokens(it, sep) + c =~= w + (store_tokens(st) + c));
                lemma_holds_split(s, i, w, store_tokens(st) + c);
                assert(s[i].kind == w[0]);
                law_store_reads_back(s, i + 1, st, next);
            }
        },
        ServiceItemModel::Function(f) => {
            let w = seq![TokenKindModel::Ident("fn"@)];
            assert(item_body_tokens(it, sep) + c =~= w + (function_tokens(f, sep) + c));
            lemma_holds_split(s, i, w, function_tokens(f, sep) + c);
            assert(s[i].kind == w[0]);
            law_function_reads_back(s, i + 1, f, sep, next);
        },
    }
}

/// Service items written out at `i`, whatever the separator, and closed by `}` read back, each
/// with the documentation comments written right before it, through the `}`.
#[verifier::rlimit(80)]
pub proof fn law_items_read_back(s: Seq<TokenModel>, i: int, items: Seq<ServiceItemModel>, sep: Seq<TokenKindModel>)
    requires
        forall|k: int| 0 <= k < items.len() ==> item_ok(#[trigger] items[k]),
        sep_ok(sep),
        holds(s, i, items_tokens(items, sep) + seq![TokenKindModel::Symbol('}')]),
    ensures
        items_rule(s, i, Seq::empty()) == Ok::<(Seq<ServiceItemModel>, int, Seq<Seq<char>>), DiagnosticModel>(
            (items, i + items_tokens(items, sep).len() + 1, Seq::empty()),
        ),
    decreases items.len(),
{
    let c = seq![TokenKindModel::Symbol('}')];
    if items.len() == 0 {
        assert(items_tokens(items, sep) + c =~= c);
        assert(s[i].kind == c[0]);
        assert(items =~= Seq::<ServiceItemModel>::empty());
    } else {
        let it = items[0];
        let rest = items.drop_first();
        let d = docs_tokens(item_docs(it));
        let b = item_body_tokens(it, sep);
        let r = items_tokens(rest, sep) + c;
        assert(items_tokens(items, sep) + c =~= d + (b + (sep + r)));
        lemma_holds_split(s, i, d, b + (sep + r));
        lemma_holds_split(s, i + d.len(), b, sep + r);
        assert(fresh_start(r[0])) by {
            if rest.len() > 0 {
                let w = rest[0];
                let wb = item_body_tokens(w, sep);
                assert(wb.len() > 0 && wb[0] is Ident) by {
                    match w {
                        ServiceItemModel::Store(st) => {},
                        _ => {},
                    }
                }
                lemma_docs_then_name_start(item_docs(w), wb + sep);
                assert(item_tokens(w, sep) == docs_tokens(item_docs(w)) + (wb + sep));
                assert(r[0] == item_tokens(w, sep)[0]);
            } else {
                assert(r[0] == c[0]);
            }
        }
        let j = i + d.len();
        let m = j + b.len();
        lemma_after_sep(s, m, sep, r);
        assert(item_ok(items[0]));
        assert(b.len() > 0 && b[0] is Ident) by {
            match it {
                ServiceItemModel::Store(st) => {},
                _ => {},
            }
        }
        assert(s[j].kind == b[0]);
        if d.len() > 0 {
            assert(s[i].kind == d[0]);
        }
        lemma_docs_read_back(s, i, item_docs(it));
        assert(Seq::<Seq<char>>::empty() + item_docs(it) =~= item_docs(it));
        assert(holds(s, j, b + seq![s[m].kind])) by {
            assert forall|x: int| 0 <= x < (b + seq![s[m].kind]).len() implies s[j + x].kind == #[trigger] (b + seq![s[m].kind])[x] by {
                if x < b.len() {
                    assert(b[x] == (b + seq![s[m].kind])[x]);
                }
            }
        }
        lemma_item_reads_back(s, j, it, sep, s[m].kind);
        assert forall|x: int| 0 <= x < rest.len() implies item_ok(#[trigger] rest[x]) by {
            assert(rest[x] == items[x + 1]);
        }
        law_items_read_back(s, m + sep.len(), rest, sep);
        assert(seq![it] + rest =~= items);
    }
}

/// A service that can be written out and read back.
pub open spec fn service_ok(svc: ServiceModel) -> bool {
    name_ok(svc.name) && forall|k: int| 0 <= k < svc.items.len() ==> item_ok(#[trigger] svc.items[k])
}

/// A service written out: its documentation comments, `service` name `{` items `}`.
pub open spec fn service_tokens(svc: ServiceModel, sep: Seq<TokenKindModel>) -> Seq<TokenKindModel> {
    docs_tokens(svc.docs) + seq![
        TokenKindModel::Ident("service"@),
        TokenKindModel::Ident(svc.name),
        TokenKindModel::Symbol('{'),
    ] + items_tokens(svc.items, sep) + seq![TokenKindModel::Symbol('}')]
}

/// Services written out one after the other.
pub open spec fn services_tokens(svcs: Seq<ServiceModel>, sep: Seq<TokenKindModel>) -> Seq<TokenKindModel>
    decreases svcs.len(),
{
    if svcs.len() == 0 {
        Seq::empty()
    } else {
        service_tokens(svcs[0], sep) + services_tokens(svcs.drop_first(), sep)
    }
}

/// A document that can be written out and read back: one or more services that can.
pub open spec fn document_ok(d: DocumentModel) -> bool {
    d.services.len() > 0 && forall|k: int| 0 <= k < d.services.len() ==> service_ok(#[trigger] d.services[k])
}

/// Services written out at `i`, whatever the separator, followed by the end of the file, read
/// back, each with the documentation comments written right before it.
#[verifier::rlimit(80)]
pub proof fn law_services_read_back(s: Seq<TokenModel>, i: int, svcs: Seq<ServiceModel>, sep: Seq<TokenKindModel>)
    requires
        forall|k: int| 0 <= k < svcs.len() ==> service_ok(#[trigger] svcs[k]),
        sep_ok(sep),
        holds(s, i, services_tokens(svcs, sep) + seq![TokenKindModel::Eof]),
    ensures
        document_rule(s, i, Seq::empty()) == Ok::<Seq<ServiceModel>, DiagnosticModel>(svcs),
    decreases svcs.len(),
{
    let e = seq![TokenKindModel::Eof];
    if svcs.len() == 0 {
        assert(services_tokens(svcs, sep) + e =~= e);
        assert(s[i].kind == e[0]);
        assert(svcs =~= Seq::<ServiceModel>::empty());
    } else {
        let svc = svcs[0];
        let rest = svcs.drop_first();
        let d = docs_tokens(svc.docs);
        let h = seq![TokenKindModel::Ident("service"@), TokenKindModel::Ident(svc.name), TokenKindModel::Symbol('{')];
        let it = items_tokens(svc.items, sep);
        let c = seq![TokenKindModel::Symbol('}')];
        assert(services_tokens(svcs, sep) + e =~= d + h + (it + c) + (services_tokens(rest, sep) + e));
        lemma_holds_split(s, i, d + h + (it + c), services_tokens(rest, sep) + e);
        lemma_holds_split(s, i, d + h, it + c);
        lemma_holds_split(s, i, d, h);
        let j = i + d.len();
        assert(s[j].kind == h[0]);
        assert(s[j + 1].kind == h[1]);
        assert(s[j + 2].kind == h[2]);
        if d.len() > 0 {
            assert(s[i].kind == d[0]);
        } else {
            assert(s[i].kind == h[0]);
        }
        lemma_docs_read_back(s, i, svc.docs);
        assert(Seq::<Seq<char>>::empty() + svc.docs =~= svc.docs);
        assert(service_ok(svcs[0]));
        law_items_read_back(s, j + 3, svc.items, sep);
        let m = j + 3 + it.len() + 1;
        assert(service_rule(s, j, svc.docs) == Ok::<(ServiceModel, int, Seq<Seq<char>>), DiagnosticModel>(
            (svc, m, Seq::empty()),
        ));
        assert forall|x: int| 0 <= x < rest.len() implies service_ok(#[trigger] rest[x]) by {
            assert(rest[x] == svcs[x + 1]);
        }
        law_services_read_back(s, m, rest, sep);
        assert(seq![svc] + rest =~= svcs);
    }
}

/// What parsing is for: a document written out as tokens (each service and each item with its
/// documentation comments, enum variants with their fields, types with their array levels,
/// list entries followed by no separator, by `,` or by `;`), followed by the end of the file,
/// parses back to that very document.
pub proof fn law_document_reads_back(s: Seq<TokenModel>, d: DocumentModel, sep: Seq<TokenKindModel>)
    requires
        document_ok(d),
        sep_ok(sep),
        s.map_values(|t: TokenModel| t.kind) == services_tokens(d.services, sep).push(TokenKindModel::Eof),
    ensures
        parse_model(s) == Ok::<DocumentModel, DiagnosticModel>(d),
{
    let ks = services_tokens(d.services, sep) + seq![TokenKindModel::Eof];
    assert(services_tokens(d.services, sep).push(TokenKindModel::Eof) =~= ks);
    assert(holds(s, 0, ks)) by {
        assert forall|j: int| 0 <= j < ks.len() implies s[0 + j].kind == #[trigger] ks[j] by {
            assert(s.map_values(|t: TokenModel| t.kind)[j] == s[j].kind);
        }
    }
    law_services_read_back(s, 0, d.services, sep);
    let svc = d.services[0];
    assert(service_ok(d.services[0]));
    assert(services_tokens(d.services, sep) == service_tokens(svc, sep) + services_tokens(d.services.drop_first(), sep));
    assert(s[0].kind == ks[0]);
    if svc.docs.len() > 0 {
        assert(ks[0] == TokenKindModel::Doc(svc.docs[0]));
    } else {
        assert(ks[0] == TokenKindModel::Ident("service"@));
    }
    assert(d == DocumentModel { services: d.services });
}

} // verus!
