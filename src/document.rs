//! The part of an OpenAPI document that the catalog reads.
use vstd::prelude::*;

verus! {

/// A schema as written in a document: a named reference into the
/// components, or an inline schema of one of the supported kinds.
#[derive(Debug)]
pub enum Schema {
    /// A `$ref` pointer such as `#/components/schemas/Pet`.
    Reference(String),
    String,
    Number,
    Integer,
    Boolean,
    /// An array and its `items` schema, if one is declared.
    Array(Option<Box<Schema>>),
    /// An object and its properties in declaration order.
    Object(Vec<Property>),
    /// Any other kind: composed, free-form, ...
    Unsupported,
}

/// A declared object property and its schema, if one is given.
#[derive(Debug)]
pub struct Property {
    pub name: String,
    pub schema: Option<Schema>,
}

/// A value given inline or by a reference elsewhere in the document.
#[derive(Debug)]
pub enum RefOr<T> {
    Reference(String),
    Item(T),
}

impl<T> RefOr<T> {
    /// The reference, where this is one.
    pub fn into_reference(self) -> (r: Option<String>)
        ensures
            match self {
                RefOr::Reference(x) => r == Some(x),
                RefOr::Item(_) => r is None,
            },
    {
        match self {
            RefOr::Reference(reference) => Some(reference),
            RefOr::Item(_) => None,
        }
    }
}

/// Where a parameter is passed.
#[derive(Clone, Copy, Debug, PartialEq, Eq, Structural)]
pub enum ParameterLocation {
    Query,
    Path,
    Header,
    Cookie,
}

/// How a parameter's type is described.
#[derive(Debug)]
pub enum ParameterFormat {
    Schema(Schema),
    Content,
}

#[derive(Debug)]
pub struct Parameter {
    pub name: String,
    pub location: ParameterLocation,
    pub format: ParameterFormat,
}

/// One entry of a content map: a media type and its schema.
#[derive(Debug)]
pub struct MediaType {
    pub media_type: String,
    pub schema: Option<Schema>,
}

#[derive(Debug)]
pub struct RequestBody {
    pub content: Vec<MediaType>,
}

#[derive(Debug)]
pub struct Response {
    pub content: Vec<MediaType>,
}

#[derive(Debug)]
pub struct Operation {
    pub operation_id: Option<String>,
    pub tags: Vec<String>,
    pub parameters: Vec<RefOr<Parameter>>,
    pub request_body: Option<RefOr<RequestBody>>,
    /// Responses keyed by status code, in document order.
    pub responses: Vec<(String, RefOr<Response>)>,
}

/// The operations of one path, keyed by HTTP method, in document order.
#[derive(Debug)]
pub struct PathItem {
    pub operations: Vec<(String, Operation)>,
}

/// An OpenAPI document: its paths in document order and its component
/// schemas by name (empty where the document has no components).
#[derive(Debug)]
pub struct Document {
    pub paths: Vec<(String, RefOr<PathItem>)>,
    pub components: Vec<(String, Schema)>,
}

/// Why a catalog could not be built.
#[derive(Clone, Copy, Debug, PartialEq, Eq, Structural)]
pub enum CatalogError {
    /// A reference has no final path segment to name a component.
    MalformedReference,
    /// A reference names no component schema.
    UnknownSchemaReference,
    MissingArrayItems,
    MissingPropertySchema,
    UnsupportedSchemaKind,
    /// A content entry carries no schema.
    MissingContentSchema,
    MissingOperationId,
    MissingTag,
    /// A parameter passed neither in the query, the path nor a header.
    UnsupportedParameterLocation,
    /// A parameter described by a content map instead of a schema.
    UnsupportedParameterContent,
}

} // verus!
