//! The MIDL language model.
use vstd::prelude::*;

verus! {

/// A whole MIDL source file: its services, in order.
#[derive(Debug)]
pub struct Document {
    pub services: Vec<Service>,
}

#[derive(Debug)]
pub struct Service {
    pub docs: Vec<String>,
    pub name: String,
    pub items: Vec<ServiceItem>,
}

#[derive(Debug)]
pub enum ServiceItem {
    TypeAlias(TypeAlias),
    Enum(Enum),
    Store(Store),
    Function(Function),
}

#[derive(Debug)]
pub struct TypeAlias {
    pub docs: Vec<String>,
    pub name: String,
    pub ty: Type,
}

#[derive(Debug)]
pub struct Enum {
    pub docs: Vec<String>,
    pub name: String,
    pub variants: Vec<EnumVariant>,
}

#[derive(Debug)]
pub struct EnumVariant {
    pub docs: Vec<String>,
    pub name: String,
    pub fields: Vec<Field>,
}

#[derive(Debug)]
pub struct Store {
    pub docs: Vec<String>,
    pub public: bool,
    pub name: String,
    pub ty: Type,
}

#[derive(Debug)]
pub struct Function {
    pub docs: Vec<String>,
    pub name: String,
    pub params: Vec<Field>,
    pub returns: Type,
    pub errors: Vec<String>,
}

#[derive(Debug)]
pub struct Field {
    pub name: String,
    pub ty: Type,
}

#[derive(Debug)]
pub enum Type {
    Named(String),
    Array(Box<Type>),
    Tuple(Vec<Type>),
    AnonymousStore(Box<Type>),
    Void,
}

/// A problem found in a source file, with the 1-based line and column where it was found.
#[derive(Clone, Debug, PartialEq, Eq)]
pub struct Diagnostic {
    pub message: String,
    pub line: usize,
    pub column: usize,
}

impl Diagnostic {
    pub fn new(message: String, line: usize, column: usize) -> (d: Self)
        ensures
            d.message@ == message@,
            d.line == line,
            d.column == column,
    {
        Diagnostic { message, line, column }
    }

    /// The diagnostic as text: `line:column: message`.
    pub fn to_text(&self) -> (r: String)
        ensures
            r@ == crate::text::decimal(self.line as nat) + ":"@ + crate::text::decimal(
                self.column as nat,
            ) + ": "@ + self.message@,
    {
        let mut r = crate::text::usize_to_string(self.line);
        r.append(":");
        let c = crate::text::usize_to_string(self.column);
        r.append(c.as_str());
        r.append(": ");
        r.append(self.message.as_str());
        r
    }
}

/// The mathematical value of a [`Type`].
pub enum TypeModel {
    Named(Seq<char>),
    Array(Box<TypeModel>),
    Tuple(Seq<TypeModel>),
    AnonymousStore(Box<TypeModel>),
    Void,
}

pub struct FieldModel {
    pub name: Seq<char>,
    pub ty: TypeModel,
}

pub struct FunctionModel {
    pub docs: Seq<Seq<char>>,
    pub name: Seq<char>,
    pub params: Seq<FieldModel>,
    pub returns: TypeModel,
    pub errors: Seq<Seq<char>>,
}

pub struct EnumVariantModel {
    pub docs: Seq<Seq<char>>,
    pub name: Seq<char>,
    pub fields: Seq<FieldModel>,
}

pub struct EnumModel {
    pub docs: Seq<Seq<char>>,
    pub name: Seq<char>,
    pub variants: Seq<EnumVariantModel>,
}

pub struct StoreModel {
    pub docs: Seq<Seq<char>>,
    pub public: bool,
    pub name: Seq<char>,
    pub ty: TypeModel,
}

pub struct TypeAliasModel {
    pub docs: Seq<Seq<char>>,
    pub name: Seq<char>,
    pub ty: TypeModel,
}

pub enum ServiceItemModel {
    TypeAlias(TypeAliasModel),
    Enum(EnumModel),
    Store(StoreModel),
    Function(FunctionModel),
}

pub struct ServiceModel {
    pub docs: Seq<Seq<char>>,
    pub name: Seq<char>,
    pub items: Seq<ServiceItemModel>,
}

pub struct DocumentModel {
    pub services: Seq<ServiceModel>,
}

pub struct DiagnosticModel {
    pub message: Seq<char>,
    pub line: int,
    pub column: int,
}

/// The characters of each string.
pub open spec fn texts(v: Seq<String>) -> Seq<Seq<char>> {
    v.map_values(|s: String| s@)
}

impl Type {
    pub open spec fn model(&self) -> TypeModel
        decreases self,
    {
        match self {
            Type::Named(name) => TypeModel::Named(name@),
            Type::Array(inner) => TypeModel::Array(Box::new(inner.model())),
            Type::Tuple(items) => TypeModel::Tuple(
                Seq::new(
                    items.len() as nat,
                    |i: int|
                        if 0 <= i < items.len() {
                            items[i].model()
                        } else {
                            TypeModel::Void
                        },
                ),
            ),
            Type::AnonymousStore(inner) => TypeModel::AnonymousStore(Box::new(inner.model())),
            Type::Void => TypeModel::Void,
        }
    }
}

impl Field {
    pub open spec fn model(&self) -> FieldModel {
        FieldModel { name: self.name@, ty: self.ty.model() }
    }
}

pub open spec fn fields_model(v: Seq<Field>) -> Seq<FieldModel> {
    v.map_values(|f: Field| f.model())
}

impl Function {
    pub open spec fn model(&self) -> FunctionModel {
        FunctionModel {
            docs: texts(self.docs@),
            name: self.name@,
            params: fields_model(self.params@),
            returns: self.returns.model(),
            errors: texts(self.errors@),
        }
    }
}

impl EnumVariant {
    pub open spec fn model(&self) -> EnumVariantModel {
        EnumVariantModel { docs: texts(self.docs@), name: self.name@, fields: fields_model(self.fields@) }
    }
}

impl Enum {
    pub open spec fn model(&self) -> EnumModel {
        EnumModel {
            docs: texts(self.docs@),
            name: self.name@,
            variants: self.variants@.map_values(|v: EnumVariant| v.model()),
        }
    }
}

impl Store {
    pub open spec fn model(&self) -> StoreModel {
        StoreModel { docs: texts(self.docs@), public: self.public, name: self.name@, ty: self.ty.model() }
    }
}

impl TypeAlias {
    pub open spec fn model(&self) -> TypeAliasModel {
        TypeAliasModel { docs: texts(self.docs@), name: self.name@, ty: self.ty.model() }
    }
}

impl ServiceItem {
    pub open spec fn model(&self) -> ServiceItemModel {
        match self {
            ServiceItem::TypeAlias(a) => ServiceItemModel::TypeAlias(a.model()),
            ServiceItem::Enum(e) => ServiceItemModel::Enum(e.model()),
            ServiceItem::Store(s) => ServiceItemModel::Store(s.model()),
            ServiceItem::Function(f) => ServiceItemModel::Function(f.model()),
        }
    }
}

impl Service {
    pub open spec fn model(&self) -> ServiceModel {
        ServiceModel {
            docs: texts(self.docs@),
            name: self.name@,
            items: self.items@.map_values(|i: ServiceItem| i.model()),
        }
    }
}

impl Document {
    pub open spec fn model(&self) -> DocumentModel {
        DocumentModel { services: self.services@.map_values(|s: Service| s.model()) }
    }
}

impl Diagnostic {
    pub open spec fn model(&self) -> DiagnosticModel {
        DiagnosticModel { message: self.message@, line: self.line as int, column: self.column as int }
    }
}

} // verus!
