//! Syntax analysis: MIDL tokens to a [`Document`].
//!
//! The grammar is stated below as spec functions over the token models, one per rule; each
//! parsing method is proved to compute exactly its rule. A rule yields the parsed value and
//! the position after it, or the diagnostic of the first token that does not fit.
use vstd::prelude::*;
use crate::midl::ast::{
    Diagnostic, DiagnosticModel, Document, DocumentModel, Enum, EnumModel, EnumVariant,
    EnumVariantModel, Field, FieldModel, Function, FunctionModel, Service, ServiceItem,
    ServiceItemModel, ServiceModel, Store, StoreModel, Type, TypeAlias, TypeAliasModel,
    TypeModel, fields_model, texts,
};
use crate::midl::tokenizer::{Token, TokenKind, TokenKindModel, TokenModel, tokens_model};
use crate::text::{concat, push_char, string_of};

verus! {

/// The result of a grammar rule: a value and the position after it, or a diagnostic.
pub type Parsed<T> = Result<(T, int), DiagnosticModel>;

/// A diagnostic at the token at `i`.
pub open spec fn error_at(s: Seq<TokenModel>, i: int, message: Seq<char>) -> DiagnosticModel {
    DiagnosticModel { message, line: s[i].line, column: s[i].column }
}

pub open spec fn is_symbol_at(s: Seq<TokenModel>, i: int, c: char) -> bool {
    s[i].kind == TokenKindModel::Symbol(c)
}

pub open spec fn is_word_at(s: Seq<TokenModel>, i: int, word: Seq<char>) -> bool {
    s[i].kind == TokenKindModel::Ident(word)
}

/// Some end-of-file token stands at `i` or after it.
pub open spec fn eof_ahead(s: Seq<TokenModel>, i: int) -> bool {
    exists|k: int| i <= k < s.len() && #[trigger] s[k].kind == TokenKindModel::Eof
}

pub open spec fn expected_symbol_message(c: char) -> Seq<char> {
    "expected `"@ + seq![c] + "`"@
}

pub open spec fn expected_word_message(word: Seq<char>) -> Seq<char> {
    "expected `"@ + word + "`"@
}

/// How many tokens are left from `i` on.
pub open spec fn remaining(s: Seq<TokenModel>, i: int) -> nat {
    if i < s.len() { (s.len() - i) as nat } else { 0 }
}

/// The position after an optional `c` at `i`.
pub open spec fn skip_symbol(s: Seq<TokenModel>, i: int, c: char) -> int {
    if is_symbol_at(s, i, c) { i + 1 } else { i }
}

/// The position after an optional separator (`;` or `,`) at `i`.
pub open spec fn skip_separator(s: Seq<TokenModel>, i: int) -> int {
    if is_symbol_at(s, i, ';') || is_symbol_at(s, i, ',') { i + 1 } else { i }
}

/// A required `c` at `i`.
pub open spec fn expect_symbol_rule(s: Seq<TokenModel>, i: int, c: char) -> Result<int, DiagnosticModel> {
    if is_symbol_at(s, i, c) { Ok(i + 1) } else { Err(error_at(s, i, expected_symbol_message(c))) }
}

/// The reserved words of MIDL, which cannot name anything.
pub open spec fn is_keyword(w: Seq<char>) -> bool {
    w == "service"@ || w == "store"@ || w == "public"@ || w == "type"@ || w == "enum"@ || w == "fn"@ || w == "error"@
        || w == "void"@
}

/// A required identifier at `i`: a word that is not reserved.
pub open spec fn ident_rule(s: Seq<TokenModel>, i: int) -> Parsed<Seq<char>> {
    match s[i].kind {
        TokenKindModel::Ident(name) => if is_keyword(name) {
            Err(error_at(s, i, "expected identifier"@))
        } else {
            Ok((name, i + 1))
        },
        _ => Err(error_at(s, i, "expected identifier"@)),
    }
}

/// `[]` suffixes after a type ending at `i`, each wrapping the type in an array.
pub open spec fn array_suffix_rule(s: Seq<TokenModel>, base: TypeModel, i: int) -> Parsed<TypeModel>
    decreases remaining(s, i),
{
    if 0 <= i < s.len() && is_symbol_at(s, i, '[') {
        if is_symbol_at(s, i + 1, ']') {
            array_suffix_rule(s, TypeModel::Array(Box::new(base)), i + 2)
        } else {
            Err(error_at(s, i + 1, expected_symbol_message(']')))
        }
    } else {
        Ok((base, i))
    }
}

/// `type ::= ( "(" ")" | "(" type ("," type)* ")" | "void" | "AnonymousStore" "<" type ">" | ident ) ("[" "]")*`
pub open spec fn type_rule(s: Seq<TokenModel>, i: int) -> Parsed<TypeModel>
    decreases remaining(s, i), 0int,
{
    if i < 0 || i >= s.len() {
        Err(error_at(s, i, "expected identifier"@))
    } else if is_symbol_at(s, i, '(') {
        if is_symbol_at(s, i + 1, ')') {
            array_suffix_rule(s, TypeModel::Tuple(Seq::empty()), i + 2)
        } else {
            match tuple_items_rule(s, i + 1) {
                Ok((items, j)) => array_suffix_rule(s, TypeModel::Tuple(items), j),
                Err(e) => Err(e),
            }
        }
    } else if s[i].kind == TokenKindModel::Ident("void"@) {
        array_suffix_rule(s, TypeModel::Void, i + 1)
    } else {
        match ident_rule(s, i) {
            Err(e) => Err(e),
            Ok((name, j)) => if name == "AnonymousStore"@ {
                if is_symbol_at(s, j, '<') {
                    match type_rule(s, j + 1) {
                        Err(e) => Err(e),
                        Ok((inner, k)) => if is_symbol_at(s, k, '>') {
                            array_suffix_rule(s, TypeModel::AnonymousStore(Box::new(inner)), k + 1)
                        } else {
                            Err(error_at(s, k, expected_symbol_message('>')))
                        },
                    }
                } else {
                    Err(error_at(s, j, expected_symbol_message('<')))
                }
            } else {
                array_suffix_rule(s, TypeModel::Named(name), j)
            },
        }
    }
}

/// The items of a non-empty tuple type starting at `i`, through the closing `)`.
pub open spec fn tuple_items_rule(s: Seq<TokenModel>, i: int) -> Parsed<Seq<TypeModel>>
    decreases remaining(s, i), 1int,
{
    if i < 0 || i >= s.len() {
        Err(error_at(s, i, "expected identifier"@))
    } else {
        match type_rule(s, i) {
            Err(e) => Err(e),
            Ok((item, j)) => if is_symbol_at(s, j, ')') {
                Ok((seq![item], j + 1))
            } else if is_symbol_at(s, j, ',') {
                if j + 1 > i {
                    match tuple_items_rule(s, j + 1) {
                        Err(e) => Err(e),
                        Ok((rest, k)) => Ok((seq![item] + rest, k)),
                    }
                } else {
                    Err(error_at(s, j, expected_symbol_message(',')))
                }
            } else {
                Err(error_at(s, j, expected_symbol_message(',')))
            },
        }
    }
}

/// A result value with the position after it and the documentation comments left pending.
pub type ParsedWithDocs<T> = Result<(T, int, Seq<Seq<char>>), DiagnosticModel>;

/// The documentation comments starting at `i`, and the position after them.
pub open spec fn docs_rule(s: Seq<TokenModel>, i: int) -> (Seq<Seq<char>>, int)
    decreases remaining(s, i),
{
    if 0 <= i < s.len() {
        match s[i].kind {
            TokenKindModel::Doc(text) => {
                let (rest, j) = docs_rule(s, i + 1);
                (seq![text] + rest, j)
            },
            _ => (Seq::empty(), i),
        }
    } else {
        (Seq::empty(), i)
    }
}

/// `field ::= ident ":" type`
pub open spec fn field_rule(s: Seq<TokenModel>, i: int) -> Parsed<FieldModel> {
    match ident_rule(s, i) {
        Err(e) => Err(e),
        Ok((name, j)) => match expect_symbol_rule(s, j, ':') {
            Err(e) => Err(e),
            Ok(k) => match type_rule(s, k) {
                Err(e) => Err(e),
                Ok((ty, m)) => Ok((FieldModel { name, ty }, m)),
            },
        },
    }
}

/// Fields, each optionally followed by a separator, up to and including `close`.
pub open spec fn fields_rule(s: Seq<TokenModel>, i: int, close: char) -> Parsed<Seq<FieldModel>>
    decreases remaining(s, i),
{
    if i < 0 || i >= s.len() {
        Err(error_at(s, i, "expected identifier"@))
    } else if is_symbol_at(s, i, close) {
        Ok((Seq::empty(), i + 1))
    } else {
        match field_rule(s, i) {
            Err(e) => Err(e),
            Ok((field, j)) => {
                let k = skip_separator(s, j);
                // every field consumes tokens, so `k > i` always holds
                if k > i {
                    match fields_rule(s, k, close) {
                        Err(e) => Err(e),
                        Ok((rest, m)) => Ok((seq![field] + rest, m)),
                    }
                } else {
                    Err(error_at(s, i, "expected identifier"@))
                }
            },
        }
    }
}

/// Identifiers, each optionally followed by a separator, up to and including `}`.
pub open spec fn names_rule(s: Seq<TokenModel>, i: int) -> Parsed<Seq<Seq<char>>>
    decreases remaining(s, i),
{
    if i < 0 || i >= s.len() {
        Err(error_at(s, i, "expected identifier"@))
    } else if is_symbol_at(s, i, '}') {
        Ok((Seq::empty(), i + 1))
    } else {
        match ident_rule(s, i) {
            Err(e) => Err(e),
            Ok((name, j)) => match names_rule(s, skip_separator(s, j)) {
                Err(e) => Err(e),
                Ok((rest, m)) => Ok((seq![name] + rest, m)),
            },
        }
    }
}

/// `function ::= ident "(" fields ")" "->" type ( "?" "(" "error" "{" names "}" ")" )?`, after `fn`.
pub open spec fn function_rule(s: Seq<TokenModel>, i: int, docs: Seq<Seq<char>>) -> Parsed<FunctionModel> {
    match ident_rule(s, i) {
        Err(e) => Err(e),
        Ok((name, j)) => match expect_symbol_rule(s, j, '(') {
            Err(e) => Err(e),
            Ok(j1) => match fields_rule(s, j1, ')') {
                Err(e) => Err(e),
                Ok((params, k)) => if s[k].kind != TokenKindModel::Arrow {
                    Err(error_at(s, k, "expected `->`"@))
                } else {
                    match type_rule(s, k + 1) {
                        Err(e) => Err(e),
                        Ok((ret, m)) => if is_symbol_at(s, m, '?') {
                            match expect_symbol_rule(s, m + 1, '(') {
                                Err(e) => Err(e),
                                Ok(m1) => if !is_word_at(s, m1, "error"@) {
                                    Err(error_at(s, m1, expected_word_message("error"@)))
                                } else {
                                    match expect_symbol_rule(s, m1 + 1, '{') {
                                        Err(e) => Err(e),
                                        Ok(m2) => match names_rule(s, m2) {
                                            Err(e) => Err(e),
                                            Ok((errors, p)) => match expect_symbol_rule(s, p, ')') {
                                                Err(e) => Err(e),
                                                Ok(q) => Ok((FunctionModel { docs, name, params, returns: ret, errors }, q)),
                                            },
                                        },
                                    }
                                },
                            }
                        } else {
                            Ok((FunctionModel { docs, name, params, returns: ret, errors: Seq::empty() }, m))
                        },
                    }
                },
            },
        },
    }
}

/// `alias ::= ident "=" type`, after `type`.
pub open spec fn alias_rule(s: Seq<TokenModel>, i: int, docs: Seq<Seq<char>>) -> Parsed<TypeAliasModel> {
    match ident_rule(s, i) {
        Err(e) => Err(e),
        Ok((name, j)) => match expect_symbol_rule(s, j, '=') {
            Err(e) => Err(e),
            Ok(k) => match type_rule(s, k) {
                Err(e) => Err(e),
                Ok((ty, m)) => Ok((TypeAliasModel { docs, name, ty }, m)),
            },
        },
    }
}

/// `store ::= ident ":" type`, after `store`.
pub open spec fn store_rule(s: Seq<TokenModel>, i: int, docs: Seq<Seq<char>>, public: bool) -> Parsed<StoreModel> {
    match ident_rule(s, i) {
        Err(e) => Err(e),
        Ok((name, j)) => match expect_symbol_rule(s, j, ':') {
            Err(e) => Err(e),
            Ok(k) => match type_rule(s, k) {
                Err(e) => Err(e),
                Ok((ty, m)) => Ok((StoreModel { docs, public, name, ty }, m)),
            },
        },
    }
}

/// Enum variants up to and including `}`. Documentation comments collect in `pending` until a
/// variant takes them; separators may stand anywhere between variants.
pub open spec fn variants_rule(s: Seq<TokenModel>, i: int, pending: Seq<Seq<char>>) -> ParsedWithDocs<Seq<EnumVariantModel>>
    decreases remaining(s, i),
{
    if i < 0 || i >= s.len() {
        Err(error_at(s, i, "expected identifier"@))
    } else if is_symbol_at(s, i, '}') {
        Ok((Seq::empty(), i + 1, pending))
    } else {
        let (more, j) = docs_rule(s, i);
        let docs = pending + more;
        if j < i {
            Err(error_at(s, i, "expected identifier"@))
        } else if skip_separator(s, j) > j {
            variants_rule(s, j + 1, docs)
        } else {
            match ident_rule(s, j) {
                Err(e) => Err(e),
                Ok((name, k)) => {
                    let fields = if is_symbol_at(s, k, '{') {
                        fields_rule(s, k + 1, '}')
                    } else {
                        Ok((Seq::empty(), k))
                    };
                    match fields {
                        Err(e) => Err(e),
                        Ok((fields, m)) => {
                            let q = skip_separator(s, m);
                            // a variant consumes tokens, so `q > i` always holds
                            if q > i {
                                match variants_rule(s, q, Seq::empty()) {
                                    Err(e) => Err(e),
                                    Ok((rest, r, left)) => Ok(
                                        (seq![EnumVariantModel { docs, name, fields }] + rest, r, left),
                                    ),
                                }
                            } else {
                                Err(error_at(s, i, "expected identifier"@))
                            }
                        },
                    }
                },
            }
        }
    }
}

/// `enum ::= ident "{" variants "}"`, after `enum`.
pub open spec fn enum_rule(s: Seq<TokenModel>, i: int, docs: Seq<Seq<char>>, pending: Seq<Seq<char>>) -> ParsedWithDocs<EnumModel> {
    match ident_rule(s, i) {
        Err(e) => Err(e),
        Ok((name, j)) => match expect_symbol_rule(s, j, '{') {
            Err(e) => Err(e),
            Ok(k) => match variants_rule(s, k, pending) {
                Err(e) => Err(e),
                Ok((variants, m, left)) => Ok((EnumModel { docs, name, variants }, m, left)),
            },
        },
    }
}

/// An enum named `name` with the variants `variants` parsed.
pub open spec fn enum_of_variants(docs: Seq<Seq<char>>, name: Seq<char>, variants: ParsedWithDocs<Seq<EnumVariantModel>>) -> ParsedWithDocs<EnumModel> {
    match variants {
        Err(e) => Err(e),
        Ok((variants, m, left)) => Ok((EnumModel { docs, name, variants }, m, left)),
    }
}

/// A service named `name` with the items `items` parsed.
pub open spec fn service_of_items(docs: Seq<Seq<char>>, name: Seq<char>, items: ParsedWithDocs<Seq<ServiceItemModel>>) -> ParsedWithDocs<ServiceModel> {
    match items {
        Err(e) => Err(e),
        Ok((items, m, left)) => Ok((ServiceModel { docs, name, items }, m, left)),
    }
}

/// One service item at `i` (after its documentation comments, which are `docs`).
pub open spec fn item_rule(s: Seq<TokenModel>, i: int, docs: Seq<Seq<char>>) -> ParsedWithDocs<ServiceItemModel> {
    if is_word_at(s, i, "type"@) {
        match alias_rule(s, i + 1, docs) {
            Err(e) => Err(e),
            Ok((a, k)) => Ok((ServiceItemModel::TypeAlias(a), k, Seq::empty())),
        }
    } else if is_word_at(s, i, "enum"@) {
        match enum_rule(s, i + 1, docs, Seq::empty()) {
            Err(e) => Err(e),
            Ok((e, k, left)) => Ok((ServiceItemModel::Enum(e), k, left)),
        }
    } else {
        let public = is_word_at(s, i, "public"@);
        let j = if public { i + 1 } else { i };
        if is_word_at(s, j, "store"@) {
            match store_rule(s, j + 1, docs, public) {
                Err(e) => Err(e),
                Ok((st, k)) => Ok((ServiceItemModel::Store(st), k, Seq::empty())),
            }
        } else if public {
            Err(error_at(s, j, "`public` can only modify `store`"@))
        } else if is_word_at(s, j, "fn"@) {
            match function_rule(s, j + 1, docs) {
                Err(e) => Err(e),
                Ok((f, k)) => Ok((ServiceItemModel::Function(f), k, Seq::empty())),
            }
        } else {
            Err(error_at(s, j, "expected service item"@))
        }
    }
}

/// Service items up to and including `}`; documentation comments wait in `pending` until an
/// item takes them.
pub open spec fn items_rule(s: Seq<TokenModel>, i: int, pending: Seq<Seq<char>>) -> ParsedWithDocs<Seq<ServiceItemModel>>
    decreases remaining(s, i),
{
    if i < 0 || i >= s.len() {
        Err(error_at(s, i, "expected service item"@))
    } else if is_symbol_at(s, i, '}') {
        Ok((Seq::empty(), i + 1, pending))
    } else {
        let (more, j) = docs_rule(s, i);
        let docs = pending + more;
        if j < i {
            Err(error_at(s, i, "expected service item"@))
        } else if skip_separator(s, j) > j {
            items_rule(s, j + 1, docs)
        } else {
            match item_rule(s, j, docs) {
                Err(e) => Err(e),
                Ok((item, k, left)) => {
                    let q = skip_separator(s, k);
                    // an item consumes tokens, so `q > i` always holds
                    if q > i {
                        match items_rule(s, q, left) {
                            Err(e) => Err(e),
                            Ok((rest, r, left2)) => Ok((seq![item] + rest, r, left2)),
                        }
                    } else {
                        Err(error_at(s, i, "expected service item"@))
                    }
                },
            }
        }
    }
}

/// `service ::= "service" ident "{" items "}"`; it takes the pending documentation comments.
pub open spec fn service_rule(s: Seq<TokenModel>, i: int, pending: Seq<Seq<char>>) -> ParsedWithDocs<ServiceModel> {
    if !is_word_at(s, i, "service"@) {
        Err(error_at(s, i, expected_word_message("service"@)))
    } else {
        match ident_rule(s, i + 1) {
            Err(e) => Err(e),
            Ok((name, j)) => match expect_symbol_rule(s, j, '{') {
                Err(e) => Err(e),
                Ok(k) => match items_rule(s, k, Seq::empty()) {
                    Err(e) => Err(e),
                    Ok((items, m, left)) => Ok((ServiceModel { docs: pending, name, items }, m, left)),
                },
            },
        }
    }
}

/// `document ::= (docs service)*` up to the end-of-file token.
pub open spec fn document_rule(s: Seq<TokenModel>, i: int, pending: Seq<Seq<char>>) -> Result<Seq<ServiceModel>, DiagnosticModel>
    decreases remaining(s, i),
{
    if i < 0 || i >= s.len() {
        Err(error_at(s, i, expected_word_message("service"@)))
    } else if s[i].kind == TokenKindModel::Eof {
        Ok(Seq::empty())
    } else {
        let (more, j) = docs_rule(s, i);
        match service_rule(s, j, pending + more) {
            Err(e) => Err(e),
            Ok((service, k, left)) => if k > i {
                match document_rule(s, k, left) {
                    Err(e) => Err(e),
                    Ok(rest) => Ok(seq![service] + rest),
                }
            } else {
                Err(error_at(s, i, expected_word_message("service"@)))
            },
        }
    }
}

/// What parsing the token list `s` gives: a document holds one or more services.
pub open spec fn parse_model(s: Seq<TokenModel>) -> Result<DocumentModel, DiagnosticModel> {
    if 0 < s.len() && s[0].kind == TokenKindModel::Eof {
        Err(error_at(s, 0, expected_word_message("service"@)))
    } else {
        match document_rule(s, 0, Seq::empty()) {
            Err(e) => Err(e),
            Ok(services) => Ok(DocumentModel { services }),
        }
    }
}

/// `prefix` in front of the sequence `rest` parsed, unless it failed.
pub open spec fn prepend_parsed<T>(prefix: Seq<T>, rest: Parsed<Seq<T>>) -> Parsed<Seq<T>> {
    match rest {
        Ok((r, j)) => Ok((prefix + r, j)),
        Err(e) => Err(e),
    }
}

/// `prefix` in front of the sequence `rest` parsed, unless it failed.
pub open spec fn prepend_parsed_docs<T>(prefix: Seq<T>, rest: ParsedWithDocs<Seq<T>>) -> ParsedWithDocs<Seq<T>> {
    match rest {
        Ok((r, j, left)) => Ok((prefix + r, j, left)),
        Err(e) => Err(e),
    }
}

proof fn lemma_prepend_parsed<T>(prefix: Seq<T>, x: T, rest: Parsed<Seq<T>>)
    ensures
        prepend_parsed(prefix, prepend_parsed(seq![x], rest)) == prepend_parsed(prefix.push(x), rest),
        prepend_parsed(Seq::<T>::empty(), rest) == rest,
{
    if let Ok((r, j)) = rest {
        assert(prefix + (seq![x] + r) =~= prefix.push(x) + r);
        assert(Seq::<T>::empty() + r =~= r);
    }
}

proof fn lemma_prepend_parsed_docs<T>(prefix: Seq<T>, x: T, rest: ParsedWithDocs<Seq<T>>)
    ensures
        prepend_parsed_docs(prefix, prepend_parsed_docs(seq![x], rest)) == prepend_parsed_docs(prefix.push(x), rest),
        prepend_parsed_docs(Seq::<T>::empty(), rest) == rest,
{
    if let Ok((r, j, left)) = rest {
        assert(prefix + (seq![x] + r) =~= prefix.push(x) + r);
        assert(Seq::<T>::empty() + r =~= r);
    }
}

/// `prefix` in front of the services `rest` parsed, unless it failed.
pub open spec fn prepend_services(prefix: Seq<ServiceModel>, rest: Result<Seq<ServiceModel>, DiagnosticModel>) -> Result<Seq<ServiceModel>, DiagnosticModel> {
    match rest {
        Ok(r) => Ok(prefix + r),
        Err(e) => Err(e),
    }
}

pub open spec fn variants_model(v: Seq<EnumVariant>) -> Seq<EnumVariantModel> {
    v.map_values(|x: EnumVariant| x.model())
}

pub open spec fn service_items_model(v: Seq<ServiceItem>) -> Seq<ServiceItemModel> {
    v.map_values(|x: ServiceItem| x.model())
}

pub open spec fn services_model(v: Seq<Service>) -> Seq<ServiceModel> {
    v.map_values(|x: Service| x.model())
}

/// A parser over a token list; `pending_docs` holds documentation comments read but not yet
/// attached to a declaration.
struct Parser {
    tokens: Vec<Token>,
    pos: usize,
    pending_docs: Vec<String>,
}

impl Parser {
    spec fn toks(&self) -> Seq<TokenModel> {
        tokens_model(self.tokens@)
    }

    spec fn at(&self) -> int {
        self.pos as int
    }

    spec fn pending(&self) -> Seq<Seq<char>> {
        texts(self.pending_docs@)
    }

    /// The parser never moves past the first end-of-file token.
    spec fn wf(&self) -> bool {
        &&& self.pos < self.tokens.len()
        &&& eof_ahead(self.toks(), self.pos as int)
    }

    fn new(tokens: Vec<Token>) -> (p: Self)
        requires
            eof_ahead(tokens_model(tokens@), 0),
        ensures
            p.wf(),
            p.tokens@ == tokens@,
            p.pos == 0,
            p.pending_docs@.len() == 0,
    {
        Parser { tokens, pos: 0, pending_docs: Vec::new() }
    }

    fn current(&self) -> (t: &Token)
        requires
            self.wf(),
        ensures
            t.model() == self.toks()[self.at()],
    {
        &self.tokens[self.pos]
    }

    proof fn lemma_step(&self, next: int)
        requires
            self.wf(),
            self.toks()[self.at()].kind != TokenKindModel::Eof,
            next == self.at() + 1,
        ensures
            next < self.tokens.len(),
            eof_ahead(self.toks(), next),
    {
        let k = choose|k: int| self.at() <= k < self.toks().len() && #[trigger] self.toks()[k].kind == TokenKindModel::Eof;
        assert(k != self.at());
        assert(self.toks()[k].kind == TokenKindModel::Eof);
    }

    fn error_here(&self, message: String) -> (d: Diagnostic)
        requires
            self.wf(),
        ensures
            d.model() == error_at(self.toks(), self.at(), message@),
    {
        let t = self.current();
        Diagnostic::new(message, t.line, t.column)
    }

    fn at_eof(&self) -> (r: bool)
        requires
            self.wf(),
        ensures
            r == (self.toks()[self.at()].kind == TokenKindModel::Eof),
    {
        match self.current().kind {
            TokenKind::Eof => true,
            _ => false,
        }
    }

    fn consume_symbol(&mut self, symbol: char) -> (r: bool)
        requires
            old(self).wf(),
        ensures
            final(self).wf(),
            final(self).tokens == old(self).tokens,
            final(self).pending_docs == old(self).pending_docs,
            r == is_symbol_at(old(self).toks(), old(self).at(), symbol),
            final(self).at() == skip_symbol(old(self).toks(), old(self).at(), symbol),
    {
        let matched = match self.current().kind {
            TokenKind::Symbol(c) => c == symbol,
            _ => false,
        };
        if matched {
            proof {
                self.lemma_step(self.at() + 1);
            }
            self.pos = self.pos + 1;
        }
        matched
    }

    fn consume_separator(&mut self) -> (r: bool)
        requires
            old(self).wf(),
        ensures
            final(self).wf(),
            final(self).tokens == old(self).tokens,
            final(self).pending_docs == old(self).pending_docs,
            final(self).at() == skip_separator(old(self).toks(), old(self).at()),
            r == (final(self).at() != old(self).at()),
    {
        self.consume_symbol(';') || self.consume_symbol(',')
    }

    fn expect_symbol(&mut self, symbol: char) -> (r: Result<(), Diagnostic>)
        requires
            old(self).wf(),
        ensures
            final(self).wf(),
            final(self).tokens == old(self).tokens,
            final(self).pending_docs == old(self).pending_docs,
            match expect_symbol_rule(old(self).toks(), old(self).at(), symbol) {
                Ok(j) => r is Ok && final(self).at() == j,
                Err(e) => r matches Err(d) && d.model() == e,
            },
    {
        if self.consume_symbol(symbol) {
            Ok(())
        } else {
            let mut message = string_of("expected `");
            push_char(&mut message, symbol);
            let message = concat(message.as_str(), "`");
            assert(message@ =~= expected_symbol_message(symbol));
            Err(self.error_here(message))
        }
    }

    fn expect_ident(&mut self) -> (r: Result<String, Diagnostic>)
        requires
            old(self).wf(),
        ensures
            final(self).wf(),
            final(self).tokens == old(self).tokens,
            final(self).pending_docs == old(self).pending_docs,
            match ident_rule(old(self).toks(), old(self).at()) {
                Ok((name, j)) => r matches Ok(n) && n@ == name && final(self).at() == j,
                Err(e) => r matches Err(d) && d.model() == e,
            },
    {
        let name = match &self.current().kind {
            TokenKind::Ident(ident) => if is_keyword_text(ident.as_str()) {
                None
            } else {
                Some(ident.clone())
            },
            _ => None,
        };
        match name {
            Some(ident) => {
                proof {
                    self.lemma_step(self.at() + 1);
                }
                self.pos = self.pos + 1;
                Ok(ident)
            },
            None => Err(self.error_here(string_of("expected identifier"))),
        }
    }

    fn parse_array_suffix(&mut self, base: Type) -> (r: Result<Type, Diagnostic>)
        requires
            old(self).wf(),
        ensures
            final(self).tokens == old(self).tokens,
            final(self).pending_docs == old(self).pending_docs,
            match array_suffix_rule(old(self).toks(), base.model(), old(self).at()) {
                Ok((t, j)) => r matches Ok(ty) && ty.model() == t && final(self).at() == j && final(self).wf()
                    && j >= old(self).at(),
                Err(e) => r matches Err(d) && d.model() == e,
            },
    {
        let mut ty = base;
        while self.consume_symbol('[')
            invariant
                self.wf(),
                self.tokens == old(self).tokens,
                self.pending_docs == old(self).pending_docs,
                self.at() >= old(self).at(),
                array_suffix_rule(old(self).toks(), base.model(), old(self).at())
                    == array_suffix_rule(self.toks(), ty.model(), self.at()),
            decreases self.tokens.len() - self.pos,
        {
            if let Err(d) = self.expect_symbol(']') {
                return Err(d);
            }
            ty = Type::Array(Box::new(ty));
        }
        Ok(ty)
    }

    fn parse_type(&mut self) -> (r: Result<Type, Diagnostic>)
        requires
            old(self).wf(),
        ensures
            final(self).tokens == old(self).tokens,
            final(self).pending_docs == old(self).pending_docs,
            match type_rule(old(self).toks(), old(self).at()) {
                Ok((t, j)) => r matches Ok(ty) && ty.model() == t && final(self).at() == j && final(self).wf()
                    && j > old(self).at(),
                Err(e) => r matches Err(d) && d.model() == e,
            },
        decreases old(self).tokens.len() - old(self).pos,
    {
        let ghost s = self.toks();
        let ghost i = self.at();
        if self.consume_symbol('(') {
            if self.consume_symbol(')') {
                let empty: Vec<Type> = Vec::new();
                proof {
                    lemma_tuple_model(empty);
                    assert(items_model(empty@) =~= Seq::<TypeModel>::empty());
                }
                return self.parse_array_suffix(Type::Tuple(empty));
            }
            let mut items: Vec<Type> = Vec::new();
            assert(type_rule(s, i) == tuple_then_suffix(s, tuple_items_rule(s, i + 1)));
            assert(items_model(items@) =~= Seq::<TypeModel>::empty());
            assert(prepend_items(Seq::empty(), tuple_items_rule(s, self.at())) == tuple_items_rule(s, self.at())) by {
                if let Ok((r, j)) = tuple_items_rule(s, self.at()) {
                    assert(Seq::<TypeModel>::empty() + r =~= r);
                }
            }
            loop
                invariant_except_break
                    tuple_items_rule(s, i + 1) == prepend_items(items_model(items@), tuple_items_rule(s, self.at())),
                invariant
                    self.wf(),
                    self.tokens == old(self).tokens,
                    self.pending_docs == old(self).pending_docs,
                    self.at() > i,
                    i == old(self).at(),
                    s == old(self).toks(),
                    type_rule(s, i) == tuple_then_suffix(s, tuple_items_rule(s, i + 1)),
                ensures
                    tuple_items_rule(s, i + 1) == Ok::<(Seq<TypeModel>, int), DiagnosticModel>((items_model(items@), self.at())),
                decreases self.tokens.len() - self.pos,
            {
                let ghost before = self.at();
                let item = match self.parse_type() {
                    Ok(item) => item,
                    Err(d) => return Err(d),
                };
                let ghost item_model = item.model();
                let ghost old_items = items@;
                items.push(item);
                assert(items_model(items@) =~= items_model(old_items).push(item_model));
                if self.consume_symbol(')') {
                    assert(items_model(old_items) + seq![item_model] =~= items_model(items@));
                    break;
                }
                if let Err(d) = self.expect_symbol(',') {
                    return Err(d);
                }
                proof {
                    lemma_prepend_item(items_model(old_items), item_model, tuple_items_rule(s, self.at()));
                }
            }
            proof {
                lemma_tuple_model(items);
            }
            return self.parse_array_suffix(Type::Tuple(items));
        }
        let void = match &self.current().kind {
            TokenKind::Ident(word) => crate::text::same_text(word.as_str(), "void"),
            _ => false,
        };
        if void {
            proof {
                self.lemma_step(self.at() + 1);
            }
            self.pos = self.pos + 1;
            return self.parse_array_suffix(Type::Void);
        }
        let name = match self.expect_ident() {
            Ok(name) => name,
            Err(d) => return Err(d),
        };
        if crate::text::same_text(name.as_str(), "AnonymousStore") {
            if let Err(d) = self.expect_symbol('<') {
                return Err(d);
            }
            let inner = match self.parse_type() {
                Ok(inner) => inner,
                Err(d) => return Err(d),
            };
            if let Err(d) = self.expect_symbol('>') {
                return Err(d);
            }
            self.parse_array_suffix(Type::AnonymousStore(Box::new(inner)))
        } else {
            self.parse_array_suffix(Type::Named(name))
        }
    }
}

/// Keywords are reserved: whatever the parser accepts as a name is never a keyword.
pub proof fn law_names_are_not_keywords(s: Seq<TokenModel>, i: int)
    ensures
        ident_rule(s, i) matches Ok((name, _)) ==> !is_keyword(name),
{
}

/// Whether `w` is one of the reserved words of MIDL.
pub fn is_keyword_text(w: &str) -> (r: bool)
    ensures
        r == is_keyword(w@),
{
    crate::text::same_text(w, "service") || crate::text::same_text(w, "store") || crate::text::same_text(w, "public")
        || crate::text::same_text(w, "type") || crate::text::same_text(w, "enum") || crate::text::same_text(w, "fn")
        || crate::text::same_text(w, "error") || crate::text::same_text(w, "void")
}

proof fn lemma_prepend_item(prefix: Seq<TypeModel>, item: TypeModel, rest: Parsed<Seq<TypeModel>>)
    ensures
        prepend_items(prefix, prepend_items(seq![item], rest)) == prepend_items(prefix.push(item), rest),
{
    if let Ok((r, j)) = rest {
        assert(prefix + (seq![item] + r) =~= prefix.push(item) + r);
    }
}

proof fn lemma_tuple_model(v: Vec<Type>)
    ensures
        Type::Tuple(v).model() == TypeModel::Tuple(items_model(v@)),
{
    let t = Type::Tuple(v);
    match t.model() {
        TypeModel::Tuple(m) => {
            assert(m =~= items_model(v@));
        },
        _ => {},
    }
}

/// A non-empty tuple's items followed by array suffixes.
pub open spec fn tuple_then_suffix(s: Seq<TokenModel>, items: Parsed<Seq<TypeModel>>) -> Parsed<TypeModel> {
    match items {
        Ok((items, j)) => array_suffix_rule(s, TypeModel::Tuple(items), j),
        Err(e) => Err(e),
    }
}

pub open spec fn items_model(v: Seq<Type>) -> Seq<TypeModel> {
    v.map_values(|t: Type| t.model())
}

/// `prefix` in front of the items `rest` parsed, unless it failed.
pub open spec fn prepend_items(prefix: Seq<TypeModel>, rest: Parsed<Seq<TypeModel>>) -> Parsed<Seq<TypeModel>> {
    match rest {
        Ok((r, j)) => Ok((prefix + r, j)),
        Err(e) => Err(e),
    }
}

impl Parser {
    fn consume_ident_value(&mut self, value: &str) -> (r: bool)
        requires
            old(self).wf(),
        ensures
            final(self).wf(),
            final(self).tokens == old(self).tokens,
            final(self).pending_docs == old(self).pending_docs,
            r == is_word_at(old(self).toks(), old(self).at(), value@),
            final(self).at() == if r { old(self).at() + 1 } else { old(self).at() },
    {
        let matched = match &self.current().kind {
            TokenKind::Ident(ident) => crate::text::same_text(ident.as_str(), value),
            _ => false,
        };
        if matched {
            proof {
                self.lemma_step(self.at() + 1);
            }
            self.pos = self.pos + 1;
        }
        matched
    }

    fn expect_ident_value(&mut self, value: &str) -> (r: Result<(), Diagnostic>)
        requires
            old(self).wf(),
        ensures
            final(self).wf(),
            final(self).tokens == old(self).tokens,
            final(self).pending_docs == old(self).pending_docs,
            is_word_at(old(self).toks(), old(self).at(), value@) ==> r is Ok && final(self).at() == old(self).at() + 1,
            !is_word_at(old(self).toks(), old(self).at(), value@) ==> (r matches Err(d) && d.model() == error_at(
                old(self).toks(),
                old(self).at(),
                expected_word_message(value@),
            )),
    {
        if self.consume_ident_value(value) {
            Ok(())
        } else {
            let message = concat(concat("expected `", value).as_str(), "`");
            Err(self.error_here(message))
        }
    }

    fn expect_arrow(&mut self) -> (r: Result<(), Diagnostic>)
        requires
            old(self).wf(),
        ensures
            final(self).wf(),
            final(self).tokens == old(self).tokens,
            final(self).pending_docs == old(self).pending_docs,
            old(self).toks()[old(self).at()].kind == TokenKindModel::Arrow ==> r is Ok && final(self).at() == old(self).at() + 1,
            old(self).toks()[old(self).at()].kind != TokenKindModel::Arrow ==> (r matches Err(d) && d.model() == error_at(
                old(self).toks(),
                old(self).at(),
                "expected `->`"@,
            )),
    {
        let arrow = match self.current().kind {
            TokenKind::Arrow => true,
            _ => false,
        };
        if arrow {
            proof {
                self.lemma_step(self.at() + 1);
            }
            self.pos = self.pos + 1;
            Ok(())
        } else {
            Err(self.error_here(string_of("expected `->`")))
        }
    }

    fn collect_docs(&mut self)
        requires
            old(self).wf(),
        ensures
            final(self).wf(),
            final(self).tokens == old(self).tokens,
            final(self).at() >= old(self).at(),
            final(self).at() == docs_rule(old(self).toks(), old(self).at()).1,
            final(self).pending() == old(self).pending() + docs_rule(old(self).toks(), old(self).at()).0,
    {
        let ghost s = self.toks();
        let ghost i0 = self.at();
        let ghost mut collected: Seq<Seq<char>> = Seq::empty();
        loop
            invariant
                self.wf(),
                self.tokens == old(self).tokens,
                s == old(self).toks(),
                i0 == old(self).at(),
                self.at() >= i0,
                self.pending() == old(self).pending() + collected,
                docs_rule(s, i0) == (collected + docs_rule(s, self.at()).0, docs_rule(s, self.at()).1),
            decreases self.tokens.len() - self.pos,
        {
            let text = match &self.current().kind {
                TokenKind::Doc(text) => Some(text.clone()),
                _ => None,
            };
            match text {
                Some(text) => {
                    proof {
                        self.lemma_step(self.at() + 1);
                        assert(collected + (seq![text@] + docs_rule(s, self.at() + 1).0) =~= collected.push(text@) + docs_rule(s, self.at() + 1).0);
                        assert(texts(self.pending_docs@.push(text)) =~= texts(self.pending_docs@).push(text@));
                        collected = collected.push(text@);
                    }
                    self.pending_docs.push(text);
                    self.pos = self.pos + 1;
                },
                None => {
                    assert(collected + Seq::<Seq<char>>::empty() =~= collected);
                    return;
                },
            }
        }
    }

    fn take_docs(&mut self) -> (docs: Vec<String>)
        ensures
            final(self).tokens == old(self).tokens,
            final(self).pos == old(self).pos,
            final(self).pending_docs@.len() == 0,
            texts(docs@) == old(self).pending(),
    {
        let mut docs: Vec<String> = Vec::new();
        std::mem::swap(&mut docs, &mut self.pending_docs);
        docs
    }

    fn parse_field(&mut self) -> (r: Result<Field, Diagnostic>)
        requires
            old(self).wf(),
        ensures
            final(self).tokens == old(self).tokens,
            final(self).pending_docs == old(self).pending_docs,
            match field_rule(old(self).toks(), old(self).at()) {
                Ok((f, j)) => r matches Ok(x) && x.model() == f && final(self).at() == j && final(self).wf()
                    && j > old(self).at(),
                Err(e) => r matches Err(d) && d.model() == e,
            },
    {
        let name = match self.expect_ident() {
            Ok(name) => name,
            Err(d) => return Err(d),
        };
        if let Err(d) = self.expect_symbol(':') {
            return Err(d);
        }
        let ty = match self.parse_type() {
            Ok(ty) => ty,
            Err(d) => return Err(d),
        };
        Ok(Field { name, ty })
    }

    /// Fields up to and including `close`.
    fn parse_fields_until(&mut self, close: char) -> (r: Result<Vec<Field>, Diagnostic>)
        requires
            old(self).wf(),
        ensures
            final(self).tokens == old(self).tokens,
            final(self).pending_docs == old(self).pending_docs,
            match fields_rule(old(self).toks(), old(self).at(), close) {
                Ok((f, j)) => r matches Ok(x) && fields_model(x@) == f && final(self).at() == j && final(self).wf()
                    && j > old(self).at(),
                Err(e) => r matches Err(d) && d.model() == e,
            },
    {
        let ghost s = self.toks();
        let ghost i0 = self.at();
        let mut fields: Vec<Field> = Vec::new();
        proof {
            lemma_prepend_parsed(Seq::<FieldModel>::empty(), arbitrary(), fields_rule(s, i0, close));
            assert(fields_model(fields@) =~= Seq::<FieldModel>::empty());
        }
        loop
            invariant_except_break
                fields_rule(s, i0, close) == prepend_parsed(fields_model(fields@), fields_rule(s, self.at(), close)),
            invariant
                self.wf(),
                self.tokens == old(self).tokens,
                self.pending_docs == old(self).pending_docs,
                s == old(self).toks(),
                i0 == old(self).at(),
                self.at() >= i0,
            ensures
                fields_rule(s, i0, close) == Ok::<(Seq<FieldModel>, int), DiagnosticModel>((fields_model(fields@), self.at())),
                self.at() > i0,
            decreases self.tokens.len() - self.pos,
        {
            if self.consume_symbol(close) {
                assert(fields_model(fields@) + Seq::<FieldModel>::empty() =~= fields_model(fields@));
                break;
            }
            let field = match self.parse_field() {
                Ok(field) => field,
                Err(d) => return Err(d),
            };
            let ghost fm = field.model();
            let ghost before = fields@;
            fields.push(field);
            self.consume_separator();
            proof {
                assert(fields_model(fields@) =~= fields_model(before).push(fm));
                lemma_prepend_parsed(fields_model(before), fm, fields_rule(s, self.at(), close));
            }
        }
        Ok(fields)
    }

    /// Identifiers up to and including `}`.
    fn parse_names(&mut self) -> (r: Result<Vec<String>, Diagnostic>)
        requires
            old(self).wf(),
        ensures
            final(self).tokens == old(self).tokens,
            final(self).pending_docs == old(self).pending_docs,
            match names_rule(old(self).toks(), old(self).at()) {
                Ok((n, j)) => r matches Ok(x) && texts(x@) == n && final(self).at() == j && final(self).wf()
                    && j > old(self).at(),
                Err(e) => r matches Err(d) && d.model() == e,
            },
    {
        let ghost s = self.toks();
        let ghost i0 = self.at();
        let mut names: Vec<String> = Vec::new();
        proof {
            lemma_prepend_parsed(Seq::<Seq<char>>::empty(), arbitrary(), names_rule(s, i0));
            assert(texts(names@) =~= Seq::<Seq<char>>::empty());
        }
        loop
            invariant_except_break
                names_rule(s, i0) == prepend_parsed(texts(names@), names_rule(s, self.at())),
            invariant
                self.wf(),
                self.tokens == old(self).tokens,
                self.pending_docs == old(self).pending_docs,
                s == old(self).toks(),
                i0 == old(self).at(),
                self.at() >= i0,
            ensures
                names_rule(s, i0) == Ok::<(Seq<Seq<char>>, int), DiagnosticModel>((texts(names@), self.at())),
                self.at() > i0,
            decreases self.tokens.len() - self.pos,
        {
            if self.consume_symbol('}') {
                assert(texts(names@) + Seq::<Seq<char>>::empty() =~= texts(names@));
                break;
            }
            let name = match self.expect_ident() {
                Ok(name) => name,
                Err(d) => return Err(d),
            };
            let ghost nm = name@;
            let ghost before = names@;
            names.push(name);
            self.consume_separator();
            proof {
                assert(texts(names@) =~= texts(before).push(nm));
                lemma_prepend_parsed(texts(before), nm, names_rule(s, self.at()));
            }
        }
        Ok(names)
    }

    /// A function declaration, after `fn`.
    fn parse_function(&mut self, docs: Vec<String>) -> (r: Result<Function, Diagnostic>)
        requires
            old(self).wf(),
        ensures
            final(self).tokens == old(self).tokens,
            final(self).pending_docs == old(self).pending_docs,
            match function_rule(old(self).toks(), old(self).at(), texts(docs@)) {
                Ok((f, j)) => r matches Ok(x) && x.model() == f && final(self).at() == j && final(self).wf()
                    && j > old(self).at(),
                Err(e) => r matches Err(d) && d.model() == e,
            },
    {
        let name = match self.expect_ident() {
            Ok(name) => name,
            Err(d) => return Err(d),
        };
        if let Err(d) = self.expect_symbol('(') {
            return Err(d);
        }
        let params = match self.parse_fields_until(')') {
            Ok(params) => params,
            Err(d) => return Err(d),
        };
        if let Err(d) = self.expect_arrow() {
            return Err(d);
        }
        let ret = match self.parse_type() {
            Ok(ty) => ty,
            Err(d) => return Err(d),
        };
        let errors = if self.consume_symbol('?') {
            if let Err(d) = self.expect_symbol('(') {
                return Err(d);
            }
            if let Err(d) = self.expect_ident_value("error") {
                return Err(d);
            }
            if let Err(d) = self.expect_symbol('{') {
                return Err(d);
            }
            let errors = match self.parse_names() {
                Ok(errors) => errors,
                Err(d) => return Err(d),
            };
            if let Err(d) = self.expect_symbol(')') {
                return Err(d);
            }
            errors
        } else {
            let none: Vec<String> = Vec::new();
            assert(texts(none@) =~= Seq::<Seq<char>>::empty());
            none
        };
        Ok(Function { docs, name, params, returns: ret, errors })
    }

    /// A type alias, after `type`.
    fn parse_type_alias(&mut self, docs: Vec<String>) -> (r: Result<TypeAlias, Diagnostic>)
        requires
            old(self).wf(),
        ensures
            final(self).tokens == old(self).tokens,
            final(self).pending_docs == old(self).pending_docs,
            match alias_rule(old(self).toks(), old(self).at(), texts(docs@)) {
                Ok((a, j)) => r matches Ok(x) && x.model() == a && final(self).at() == j && final(self).wf()
                    && j > old(self).at(),
                Err(e) => r matches Err(d) && d.model() == e,
            },
    {
        let name = match self.expect_ident() {
            Ok(name) => name,
            Err(d) => return Err(d),
        };
        if let Err(d) = self.expect_symbol('=') {
            return Err(d);
        }
        let ty = match self.parse_type() {
            Ok(ty) => ty,
            Err(d) => return Err(d),
        };
        Ok(TypeAlias { docs, name, ty })
    }

    /// A store declaration, after `store`.
    fn parse_store(&mut self, docs: Vec<String>, public: bool) -> (r: Result<Store, Diagnostic>)
        requires
            old(self).wf(),
        ensures
            final(self).tokens == old(self).tokens,
            final(self).pending_docs == old(self).pending_docs,
            match store_rule(old(self).toks(), old(self).at(), texts(docs@), public) {
                Ok((a, j)) => r matches Ok(x) && x.model() == a && final(self).at() == j && final(self).wf()
                    && j > old(self).at(),
                Err(e) => r matches Err(d) && d.model() == e,
            },
    {
        let name = match self.expect_ident() {
            Ok(name) => name,
            Err(d) => return Err(d),
        };
        if let Err(d) = self.expect_symbol(':') {
            return Err(d);
        }
        let ty = match self.parse_type() {
            Ok(ty) => ty,
            Err(d) => return Err(d),
        };
        Ok(Store { docs, public, name, ty })
    }
}

impl Parser {
    /// An enum declaration, after `enum`.
    fn parse_enum(&mut self, docs: Vec<String>) -> (r: Result<Enum, Diagnostic>)
        requires
            old(self).wf(),
        ensures
            final(self).tokens == old(self).tokens,
            match enum_rule(old(self).toks(), old(self).at(), texts(docs@), old(self).pending()) {
                Ok((e, j, left)) => r matches Ok(x) && x.model() == e && final(self).at() == j && final(self).wf()
                    && j > old(self).at() && final(self).pending() == left,
                Err(e) => r matches Err(d) && d.model() == e,
            },
    {
        let ghost s = self.toks();
        let name = match self.expect_ident() {
            Ok(name) => name,
            Err(d) => return Err(d),
        };
        if let Err(d) = self.expect_symbol('{') {
            return Err(d);
        }
        let ghost k0 = self.at();
        let ghost p0 = self.pending();
        let ghost top = enum_rule(s, old(self).at(), texts(docs@), old(self).pending());
        assert(top == enum_of_variants(texts(docs@), name@, variants_rule(s, k0, p0)));
        let mut variants: Vec<EnumVariant> = Vec::new();
        proof {
            lemma_prepend_parsed_docs(Seq::<EnumVariantModel>::empty(), arbitrary(), variants_rule(s, k0, p0));
            assert(variants_model(variants@) =~= Seq::<EnumVariantModel>::empty());
        }
        loop
            invariant_except_break
                variants_rule(s, k0, p0) == prepend_parsed_docs(
                    variants_model(variants@),
                    variants_rule(s, self.at(), self.pending()),
                ),
            invariant
                self.wf(),
                self.tokens == old(self).tokens,
                s == old(self).toks(),
                self.at() >= k0,
                k0 > old(self).at(),
                top == enum_rule(s, old(self).at(), texts(docs@), old(self).pending()),
                top == enum_of_variants(texts(docs@), name@, variants_rule(s, k0, p0)),
            ensures
                variants_rule(s, k0, p0) == Ok::<(Seq<EnumVariantModel>, int, Seq<Seq<char>>), DiagnosticModel>(
                    (variants_model(variants@), self.at(), self.pending()),
                ),
            decreases self.tokens.len() - self.pos,
        {
            if self.consume_symbol('}') {
                assert(variants_model(variants@) + Seq::<EnumVariantModel>::empty() =~= variants_model(variants@));
                break;
            }
            let ghost i = self.at();
            self.collect_docs();
            if self.consume_separator() {
                continue;
            }
            let vdocs = self.take_docs();
            let vname = match self.expect_ident() {
                Ok(name) => name,
                Err(d) => return Err(d),
            };
            let fields = if self.consume_symbol('{') {
                match self.parse_fields_until('}') {
                    Ok(fields) => fields,
                    Err(d) => return Err(d),
                }
            } else {
                let none: Vec<Field> = Vec::new();
                assert(fields_model(none@) =~= Seq::<FieldModel>::empty());
                none
            };
            let variant = EnumVariant { docs: vdocs, name: vname, fields };
            let ghost vm = variant.model();
            let ghost before = variants@;
            variants.push(variant);
            self.consume_separator();
            proof {
                assert(texts(self.pending_docs@) =~= Seq::<Seq<char>>::empty());
                assert(variants_model(variants@) =~= variants_model(before).push(vm));
                lemma_prepend_parsed_docs(variants_model(before), vm, variants_rule(s, self.at(), self.pending()));
            }
        }
        Ok(Enum { docs, name, variants })
    }

    /// One service item, after its documentation comments (which are `docs`).
    fn parse_item(&mut self, docs: Vec<String>) -> (r: Result<ServiceItem, Diagnostic>)
        requires
            old(self).wf(),
            old(self).pending_docs@.len() == 0,
        ensures
            final(self).tokens == old(self).tokens,
            match item_rule(old(self).toks(), old(self).at(), texts(docs@)) {
                Ok((item, j, left)) => r matches Ok(x) && x.model() == item && final(self).at() == j && final(self).wf()
                    && j > old(self).at() && final(self).pending() == left,
                Err(e) => r matches Err(d) && d.model() == e,
            },
    {
        proof {
            assert(self.pending() =~= Seq::<Seq<char>>::empty());
        }
        if self.consume_ident_value("type") {
            return match self.parse_type_alias(docs) {
                Ok(a) => Ok(ServiceItem::TypeAlias(a)),
                Err(d) => Err(d),
            };
        }
        if self.consume_ident_value("enum") {
            return match self.parse_enum(docs) {
                Ok(e) => Ok(ServiceItem::Enum(e)),
                Err(d) => Err(d),
            };
        }
        let public = self.consume_ident_value("public");
        if self.consume_ident_value("store") {
            match self.parse_store(docs, public) {
                Ok(st) => Ok(ServiceItem::Store(st)),
                Err(d) => Err(d),
            }
        } else if public {
            Err(self.error_here(string_of("`public` can only modify `store`")))
        } else if self.consume_ident_value("fn") {
            match self.parse_function(docs) {
                Ok(f) => Ok(ServiceItem::Function(f)),
                Err(d) => Err(d),
            }
        } else {
            Err(self.error_here(string_of("expected service item")))
        }
    }

    /// A service declaration; it takes the pending documentation comments.
    #[verifier::rlimit(40)]
    fn parse_service(&mut self) -> (r: Result<Service, Diagnostic>)
        requires
            old(self).wf(),
        ensures
            final(self).tokens == old(self).tokens,
            match service_rule(old(self).toks(), old(self).at(), old(self).pending()) {
                Ok((sv, j, left)) => r matches Ok(x) && x.model() == sv && final(self).at() == j && final(self).wf()
                    && j > old(self).at() && final(self).pending() == left,
                Err(e) => r matches Err(d) && d.model() == e,
            },
    {
        let ghost s = self.toks();
        let docs = self.take_docs();
        if let Err(d) = self.expect_ident_value("service") {
            return Err(d);
        }
        let name = match self.expect_ident() {
            Ok(name) => name,
            Err(d) => return Err(d),
        };
        if let Err(d) = self.expect_symbol('{') {
            return Err(d);
        }
        let ghost k0 = self.at();
        proof {
            assert(self.pending() =~= Seq::<Seq<char>>::empty());
        }
        let ghost p0 = self.pending();
        let ghost top = service_rule(s, old(self).at(), old(self).pending());
        assert(top == service_of_items(texts(docs@), name@, items_rule(s, k0, p0)));
        let mut items: Vec<ServiceItem> = Vec::new();
        proof {
            lemma_prepend_parsed_docs(Seq::<ServiceItemModel>::empty(), arbitrary(), items_rule(s, k0, p0));
            assert(service_items_model(items@) =~= Seq::<ServiceItemModel>::empty());
        }
        loop
            invariant_except_break
                items_rule(s, k0, p0) == prepend_parsed_docs(
                    service_items_model(items@),
                    items_rule(s, self.at(), self.pending()),
                ),
            invariant
                self.wf(),
                self.tokens == old(self).tokens,
                s == old(self).toks(),
                self.at() >= k0,
                k0 > old(self).at(),
                top == service_rule(s, old(self).at(), old(self).pending()),
                top == service_of_items(texts(docs@), name@, items_rule(s, k0, p0)),
            ensures
                items_rule(s, k0, p0) == Ok::<(Seq<ServiceItemModel>, int, Seq<Seq<char>>), DiagnosticModel>(
                    (service_items_model(items@), self.at(), self.pending()),
                ),
            decreases self.tokens.len() - self.pos,
        {
            if self.consume_symbol('}') {
                assert(service_items_model(items@) + Seq::<ServiceItemModel>::empty() =~= service_items_model(items@));
                break;
            }
            self.collect_docs();
            if self.consume_separator() {
                continue;
            }
            let idocs = self.take_docs();
            let item = match self.parse_item(idocs) {
                Ok(item) => item,
                Err(d) => return Err(d),
            };
            let ghost im = item.model();
            let ghost before = items@;
            items.push(item);
            self.consume_separator();
            proof {
                assert(service_items_model(items@) =~= service_items_model(before).push(im));
                lemma_prepend_parsed_docs(service_items_model(before), im, items_rule(s, self.at(), self.pending()));
            }
        }
        Ok(Service { docs, name, items })
    }

    #[verifier::rlimit(40)]
    fn parse_document(&mut self) -> (r: Result<Document, Diagnostic>)
        requires
            old(self).wf(),
        ensures
            match document_rule(old(self).toks(), old(self).at(), old(self).pending()) {
                Ok(services) => r matches Ok(x) && x.model().services == services,
                Err(e) => r matches Err(d) && d.model() == e,
            },
    {
        let ghost s = self.toks();
        let ghost i0 = self.at();
        let ghost p0 = self.pending();
        let mut services: Vec<Service> = Vec::new();
        proof {
            if let Ok(r) = document_rule(s, i0, p0) {
                assert(services_model(services@) + r =~= r);
            }
        }
        loop
            invariant_except_break
                document_rule(s, i0, p0) == prepend_services(
                    services_model(services@),
                    document_rule(s, self.at(), self.pending()),
                ),
            invariant
                self.wf(),
                self.tokens == old(self).tokens,
                s == old(self).toks(),
                i0 == old(self).at(),
                p0 == old(self).pending(),
            ensures
                document_rule(s, i0, p0) == Ok::<Seq<ServiceModel>, DiagnosticModel>(services_model(services@)),
            decreases self.tokens.len() - self.pos,
        {
            if self.at_eof() {
                assert(services_model(services@) + Seq::<ServiceModel>::empty() =~= services_model(services@));
                break;
            }
            self.collect_docs();
            let service = match self.parse_service() {
                Ok(service) => service,
                Err(d) => return Err(d),
            };
            let ghost sm = service.model();
            let ghost before = services@;
            services.push(service);
            proof {
                assert(services_model(services@) =~= services_model(before).push(sm));
                let rest = document_rule(s, self.at(), self.pending());
                if let Ok(r) = rest {
                    assert(services_model(before) + (seq![sm] + r) =~= services_model(services@) + r);
                }
            }
        }
        Ok(Document { services })
    }
}

/// Parses a token list into a document.
///
/// The list must hold an end-of-file token; the parser never reads past the first one.
pub fn parse_tokens(tokens: Vec<Token>) -> (r: Result<Document, Diagnostic>)
    requires
        eof_ahead(tokens_model(tokens@), 0),
    ensures
        match parse_model(tokens_model(tokens@)) {
            Ok(doc) => r matches Ok(x) && x.model() == doc,
            Err(e) => r matches Err(d) && d.model() == e,
        },
{
    let mut parser = Parser::new(tokens);
    proof {
        assert(parser.pending() =~= Seq::<Seq<char>>::empty());
    }
    if parser.at_eof() {
        let message = concat(concat("expected `", "service").as_str(), "`");
        return Err(parser.error_here(message));
    }
    parser.parse_document()
}

} // verus!
