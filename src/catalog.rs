//! The catalog: one entry per operation of a document, with its parameters,
//! request body and response resolved into type skeletons.
use crate::document::{
    CatalogError, Document, MediaType, Operation, Parameter, ParameterFormat, ParameterLocation, PathItem,
    RefOr, RequestBody, Response, Schema,
};
use crate::render::{render_markdown_table, table_text};
use crate::resolver::{resolve, Parser};
use crate::skeleton::{entries_shape, shape_text, Shape, TypeSkeleton};
use vstd::prelude::*;

verus! {

/// One catalog entry: an operation of the document.
#[derive(Debug)]
pub struct ApiInfo {
    pub path: String,
    pub method: String,
    /// Query and path parameters with their skeletons, in declaration order.
    pub parameters: Vec<(String, TypeSkeleton)>,
    /// Canonical text of the request body's skeleton.
    pub request_body: Option<String>,
    /// Canonical text of the first response's skeleton.
    pub response: Option<String>,
    /// Link into the interactive documentation.
    pub swagger_url: String,
}

/// A failed catalog build: the operation that failed and why.
#[derive(Debug, PartialEq, Eq)]
pub struct BuildError {
    pub path: String,
    pub method: String,
    pub kind: CatalogError,
}

/// Mathematical model of a [`BuildError`].
pub struct BuildFailure {
    pub path: Seq<char>,
    pub method: Seq<char>,
    pub kind: CatalogError,
}

impl View for BuildError {
    type V = BuildFailure;

    open spec fn view(&self) -> BuildFailure {
        BuildFailure { path: self.path@, method: self.method@, kind: self.kind }
    }
}

/// Mathematical model of an [`ApiInfo`].
pub struct ApiInfoView {
    pub path: Seq<char>,
    pub method: Seq<char>,
    pub parameters: Seq<(Seq<char>, Shape)>,
    pub request_body: Option<Seq<char>>,
    pub response: Option<Seq<char>>,
    pub swagger_url: Seq<char>,
}

pub open spec fn text_of(o: Option<String>) -> Option<Seq<char>> {
    match o {
        Some(s) => Some(s@),
        None => None,
    }
}

impl View for ApiInfo {
    type V = ApiInfoView;

    open spec fn view(&self) -> ApiInfoView {
        ApiInfoView {
            path: self.path@,
            method: self.method@,
            parameters: entries_shape(self.parameters@),
            request_body: text_of(self.request_body),
            response: text_of(self.response),
            swagger_url: self.swagger_url@,
        }
    }
}

/// Resolution of one schema on its own, from an empty stack.
pub open spec fn resolve_alone(comps: Seq<(String, Schema)>, s: Schema) -> Result<Shape, CatalogError> {
    resolve(comps, s, Seq::empty()).0
}

/// The canonical text of the first entry of a content map, if there is one.
pub open spec fn content_text(comps: Seq<(String, Schema)>, content: Seq<MediaType>) -> Option<
    Result<Seq<char>, CatalogError>,
> {
    if content.len() == 0 {
        None
    } else {
        match content[0].schema {
            None => Some(Err(CatalogError::MissingContentSchema)),
            Some(s) => match resolve_alone(comps, s) {
                Ok(t) => Some(Ok(shape_text(t))),
                Err(e) => Some(Err(e)),
            },
        }
    }
}

/// The request body's text: absent where there is no inline body.
pub open spec fn request_body_text(comps: Seq<(String, Schema)>, body: Option<RefOr<RequestBody>>) -> Option<
    Result<Seq<char>, CatalogError>,
> {
    match body {
        Some(RefOr::Item(b)) => content_text(comps, b.content@),
        _ => None,
    }
}

/// The text of the first response: absent where there is none, it is a
/// reference, or it has no content.
pub open spec fn response_text(comps: Seq<(String, Schema)>, responses: Seq<(String, RefOr<Response>)>) -> Option<
    Result<Seq<char>, CatalogError>,
> {
    if responses.len() == 0 {
        None
    } else {
        match responses[0].1 {
            RefOr::Item(r) => content_text(comps, r.content@),
            RefOr::Reference(_) => None,
        }
    }
}

/// The query and path parameters with their skeletons, in order. References
/// and header parameters are skipped; the first failure is the result.
pub open spec fn parameters_of(comps: Seq<(String, Schema)>, params: Seq<RefOr<Parameter>>) -> Result<
    Seq<(Seq<char>, Shape)>,
    CatalogError,
>
    decreases params.len(),
{
    if params.len() == 0 {
        Ok(Seq::empty())
    } else {
        match parameters_of(comps, params.drop_last()) {
            Err(e) => Err(e),
            Ok(prev) => match params.last() {
                RefOr::Reference(_) => Ok(prev),
                RefOr::Item(p) => match p.location {
                    ParameterLocation::Header => Ok(prev),
                    ParameterLocation::Cookie => Err(CatalogError::UnsupportedParameterLocation),
                    _ => match p.format {
                        ParameterFormat::Content => Err(CatalogError::UnsupportedParameterContent),
                        ParameterFormat::Schema(s) => match resolve_alone(comps, s) {
                            Ok(t) => Ok(prev.push((p.name@, t))),
                            Err(e) => Err(e),
                        },
                    },
                },
            },
        }
    }
}

/// `{base}/{tag}/{operation_id}`.
pub open spec fn doc_url(base: Seq<char>, tag: Seq<char>, id: Seq<char>) -> Seq<char> {
    base + "/"@ + tag + "/"@ + id
}

/// The catalog entry of one operation. The operation id is checked first,
/// then the tag, the parameters, the request body and the response.
pub open spec fn operation_info(
    comps: Seq<(String, Schema)>,
    base: Seq<char>,
    path: Seq<char>,
    method: Seq<char>,
    op: Operation,
) -> Result<ApiInfoView, CatalogError> {
    match op.operation_id {
        None => Err(CatalogError::MissingOperationId),
        Some(id) => if op.tags@.len() == 0 {
            Err(CatalogError::MissingTag)
        } else {
            match parameters_of(comps, op.parameters@) {
                Err(e) => Err(e),
                Ok(params) => match request_body_text(comps, op.request_body) {
                    Some(Err(e)) => Err(e),
                    body => match response_text(comps, op.responses@) {
                        Some(Err(e)) => Err(e),
                        response => Ok(
                            ApiInfoView {
                                path,
                                method,
                                parameters: params,
                                request_body: match body {
                                    Some(Ok(t)) => Some(t),
                                    _ => None,
                                },
                                response: match response {
                                    Some(Ok(t)) => Some(t),
                                    _ => None,
                                },
                                swagger_url: doc_url(base, op.tags@[0]@, id@),
                            },
                        ),
                    },
                },
            }
        },
    }
}

/// The entries of a path's operations, in order; the first failure is the
/// result.
pub open spec fn operations_info(
    comps: Seq<(String, Schema)>,
    base: Seq<char>,
    path: Seq<char>,
    ops: Seq<(String, Operation)>,
) -> Result<Seq<ApiInfoView>, BuildFailure>
    decreases ops.len(),
{
    if ops.len() == 0 {
        Ok(Seq::empty())
    } else {
        match operations_info(comps, base, path, ops.drop_last()) {
            Err(e) => Err(e),
            Ok(prev) => match operation_info(comps, base, path, ops.last().0@, ops.last().1) {
                Err(e) => Err(BuildFailure { path, method: ops.last().0@, kind: e }),
                Ok(info) => Ok(prev.push(info)),
            },
        }
    }
}

/// `k` occurs in `p` as a contiguous run.
pub open spec fn is_substring(k: Seq<char>, p: Seq<char>) -> bool {
    exists|i: int| 0 <= i && i + k.len() <= p.len() && #[trigger] p.subrange(i, i + k.len()) == k
}

/// A path is kept when every keyword occurs in it.
pub open spec fn keeps_path(keywords: Seq<Seq<char>>, path: Seq<char>) -> bool {
    forall|i: int| 0 <= i < keywords.len() ==> is_substring(#[trigger] keywords[i], path)
}

/// The entries of one path: none where the path is filtered out or is a
/// reference.
pub open spec fn path_info(
    comps: Seq<(String, Schema)>,
    base: Seq<char>,
    keywords: Seq<Seq<char>>,
    entry: (String, RefOr<PathItem>),
) -> Result<Seq<ApiInfoView>, BuildFailure> {
    if !keeps_path(keywords, entry.0@) {
        Ok(Seq::empty())
    } else {
        match entry.1 {
            RefOr::Reference(_) => Ok(Seq::empty()),
            RefOr::Item(item) => operations_info(comps, base, entry.0@, item.operations@),
        }
    }
}

/// The catalog of a document's paths, in order: every failure aborts it.
pub open spec fn catalog(
    comps: Seq<(String, Schema)>,
    base: Seq<char>,
    keywords: Seq<Seq<char>>,
    paths: Seq<(String, RefOr<PathItem>)>,
) -> Result<Seq<ApiInfoView>, BuildFailure>
    decreases paths.len(),
{
    if paths.len() == 0 {
        Ok(Seq::empty())
    } else {
        match catalog(comps, base, keywords, paths.drop_last()) {
            Err(e) => Err(e),
            Ok(prev) => match path_info(comps, base, keywords, paths.last()) {
                Err(e) => Err(e),
                Ok(cur) => Ok(prev + cur),
            },
        }
    }
}

pub open spec fn text_result(r: Option<Result<String, CatalogError>>) -> Option<Result<Seq<char>, CatalogError>> {
    match r {
        None => None,
        Some(Ok(s)) => Some(Ok(s@)),
        Some(Err(e)) => Some(Err(e)),
    }
}

pub open spec fn infos_view(v: Seq<ApiInfo>) -> Seq<ApiInfoView> {
    v.map_values(|a: ApiInfo| a@)
}

pub proof fn lemma_parameters_error(comps: Seq<(String, Schema)>, params: Seq<RefOr<Parameter>>, k: int)
    requires
        0 <= k <= params.len(),
        parameters_of(comps, params.subrange(0, k)) is Err,
    ensures
        parameters_of(comps, params) == parameters_of(comps, params.subrange(0, k)),
    decreases params.len() - k,
{
    if k < params.len() {
        let init = params.drop_last();
        assert(init.subrange(0, k) =~= params.subrange(0, k));
        lemma_parameters_error(comps, init, k);
    } else {
        assert(params.subrange(0, k) =~= params);
    }
}

pub proof fn lemma_operations_error(
    comps: Seq<(String, Schema)>,
    base: Seq<char>,
    path: Seq<char>,
    ops: Seq<(String, Operation)>,
    k: int,
)
    requires
        0 <= k <= ops.len(),
        operations_info(comps, base, path, ops.subrange(0, k)) is Err,
    ensures
        operations_info(comps, base, path, ops) == operations_info(comps, base, path, ops.subrange(0, k)),
    decreases ops.len() - k,
{
    if k < ops.len() {
        let init = ops.drop_last();
        assert(init.subrange(0, k) =~= ops.subrange(0, k));
        lemma_operations_error(comps, base, path, init, k);
    } else {
        assert(ops.subrange(0, k) =~= ops);
    }
}

pub proof fn lemma_catalog_error(
    comps: Seq<(String, Schema)>,
    base: Seq<char>,
    keywords: Seq<Seq<char>>,
    paths: Seq<(String, RefOr<PathItem>)>,
    k: int,
)
    requires
        0 <= k <= paths.len(),
        catalog(comps, base, keywords, paths.subrange(0, k)) is Err,
    ensures
        catalog(comps, base, keywords, paths) == catalog(comps, base, keywords, paths.subrange(0, k)),
    decreases paths.len() - k,
{
    if k < paths.len() {
        let init = paths.drop_last();
        assert(init.subrange(0, k) =~= paths.subrange(0, k));
        lemma_catalog_error(comps, base, keywords, init, k);
    } else {
        assert(paths.subrange(0, k) =~= paths);
    }
}

proof fn lemma_entries_push(v: Seq<(String, TypeSkeleton)>, x: (String, TypeSkeleton))
    ensures
        entries_shape(v.push(x)) == entries_shape(v).push((x.0@, x.1@)),
{
    assert(v.push(x).subrange(0, v.len() as int) =~= v);
}

/// Resolves the schema of the first entry of a content map into the
/// canonical text of its skeleton; `None` for an empty map.
pub fn content_to_value(content: &Vec<MediaType>, components: &Vec<(String, Schema)>) -> (r: Option<
    Result<String, CatalogError>,
>)
    ensures
        text_result(r) == content_text(components@, content@),
{
    if content.len() == 0 {
        return None;
    }
    match &content[0].schema {
        None => Some(Err(CatalogError::MissingContentSchema)),
        Some(schema) => {
            let mut parser = Parser::new();
            match parser.parse_schema(components, schema) {
                Ok(t) => Some(Ok(t.to_json())),
                Err(e) => Some(Err(e)),
            }
        },
    }
}

/// Resolves the query and path parameters, each on its own.
pub fn parse_parameters(components: &Vec<(String, Schema)>, params: &Vec<RefOr<Parameter>>) -> (r: Result<
    Vec<(String, TypeSkeleton)>,
    CatalogError,
>)
    ensures
        match r {
            Ok(v) => parameters_of(components@, params@) == Ok::<Seq<(Seq<char>, Shape)>, CatalogError>(entries_shape(v@)),
            Err(e) => parameters_of(components@, params@) == Err::<Seq<(Seq<char>, Shape)>, CatalogError>(e),
        },
{
    let mut out: Vec<(String, TypeSkeleton)> = Vec::new();
    let mut i: usize = 0;
    assert(entries_shape(out@) =~= Seq::<(Seq<char>, Shape)>::empty());
    while i < params.len()
        invariant
            i <= params.len(),
            parameters_of(components@, params@.subrange(0, i as int)) == Ok::<Seq<(Seq<char>, Shape)>, CatalogError>(entries_shape(out@)),
        decreases params.len() - i,
    {
        let ghost sub = params@.subrange(0, i + 1);
        assert(sub.drop_last() =~= params@.subrange(0, i as int));
        assert(sub.last() == params@[i as int]);
        match &params[i] {
            RefOr::Reference(_) => {},
            RefOr::Item(p) => match p.location {
                ParameterLocation::Header => {},
                ParameterLocation::Cookie => {
                    proof {
                        lemma_parameters_error(components@, params@, i + 1);
                    }
                    return Err(CatalogError::UnsupportedParameterLocation);
                },
                _ => match &p.format {
                    ParameterFormat::Content => {
                        proof {
                            lemma_parameters_error(components@, params@, i + 1);
                        }
                        return Err(CatalogError::UnsupportedParameterContent);
                    },
                    ParameterFormat::Schema(schema) => {
                        let mut parser = Parser::new();
                        match parser.parse_schema(components, schema) {
                            Ok(t) => {
                                proof {
                                    lemma_entries_push(out@, (p.name, t));
                                }
                                out.push((p.name.clone(), t));
                            },
                            Err(e) => {
                                proof {
                                    lemma_parameters_error(components@, params@, i + 1);
                                }
                                return Err(e);
                            },
                        }
                    },
                },
            },
        }
        i += 1;
    }
    assert(params@.subrange(0, params.len() as int) =~= params@);
    Ok(out)
}

/// The catalog entry of one operation, with documentation links under
/// `base_url`.
pub fn extract_api_info(
    base_url: &String,
    components: &Vec<(String, Schema)>,
    path: &String,
    method: &String,
    operation: &Operation,
) -> (r: Result<ApiInfo, CatalogError>)
    ensures
        match r {
            Ok(info) => operation_info(components@, base_url@, path@, method@, *operation) == Ok::<ApiInfoView, CatalogError>(info@),
            Err(e) => operation_info(components@, base_url@, path@, method@, *operation) == Err::<ApiInfoView, CatalogError>(e),
        },
{
    let operation_id = match &operation.operation_id {
        Some(id) => id,
        None => return Err(CatalogError::MissingOperationId),
    };
    if operation.tags.len() == 0 {
        return Err(CatalogError::MissingTag);
    }
    let tag = &operation.tags[0];
    let parameters = match parse_parameters(components, &operation.parameters) {
        Ok(v) => v,
        Err(e) => return Err(e),
    };
    let request_body = match &operation.request_body {
        Some(RefOr::Item(body)) => match content_to_value(&body.content, components) {
            Some(Err(e)) => return Err(e),
            Some(Ok(t)) => Some(t),
            None => None,
        },
        _ => None,
    };
    let response = if operation.responses.len() == 0 {
        None
    } else {
        match &operation.responses[0].1 {
            RefOr::Item(resp) => match content_to_value(&resp.content, components) {
                Some(Err(e)) => return Err(e),
                Some(Ok(t)) => Some(t),
                None => None,
            },
            RefOr::Reference(_) => None,
        }
    };
    let mut swagger_url = base_url.clone();
    swagger_url.append("/");
    swagger_url.append(tag.as_str());
    swagger_url.append("/");
    swagger_url.append(operation_id.as_str());
    Ok(ApiInfo {
        path: path.clone(),
        method: method.clone(),
        parameters,
        request_body,
        response,
        swagger_url,
    })
}

/// Whether `k` occurs in `p`.
pub fn contains_text(p: &str, k: &str) -> (r: bool)
    ensures
        r == is_substring(k@, p@),
{
    let n = p.unicode_len();
    let m = k.unicode_len();
    if m > n {
        return false;
    }
    let mut i: usize = 0;
    while i <= n - m
        invariant
            m <= n,
            n == p@.len(),
            m == k@.len(),
            i <= n - m + 1,
            forall|j: int| 0 <= j < i ==> #[trigger] p@.subrange(j, j + m) != k@,
        decreases n - m + 1 - i,
    {
        let mut t: usize = 0;
        while t < m && p.get_char(i + t) == k.get_char(t)
            invariant
                t <= m,
                i + m <= n,
                n == p@.len(),
                m == k@.len(),
                forall|u: int| 0 <= u < t ==> p@[i + u] == k@[u],
            decreases m - t,
        {
            t += 1;
        }
        if t == m {
            assert(p@.subrange(i as int, i + m) =~= k@);
            return true;
        }
        assert(p@.subrange(i as int, i + m)[t as int] != k@[t as int]);
        i += 1;
    }
    false
}

/// Whether every keyword occurs in `path`.
pub fn path_matches(keywords: &Vec<String>, path: &String) -> (r: bool)
    ensures
        r == keeps_path(keywords@.map_values(|k: String| k@), path@),
{
    let ghost kw = keywords@.map_values(|k: String| k@);
    let mut i: usize = 0;
    while i < keywords.len()
        invariant
            i <= keywords.len(),
            kw == keywords@.map_values(|k: String| k@),
            forall|j: int| 0 <= j < i ==> is_substring(#[trigger] kw[j], path@),
        decreases keywords.len() - i,
    {
        if !contains_text(path.as_str(), keywords[i].as_str()) {
            assert(!is_substring(kw[i as int], path@));
            return false;
        }
        i += 1;
    }
    true
}

/// The keywords a catalog is filtered on.
pub struct Config {
    pub filter_keywords: Vec<String>,
}

/// Builds the catalog of a document, with documentation links under a base
/// URL and optionally restricted to the paths that hold every keyword.
pub struct Humbler {
    swagger_ui_url: String,
    openapi_json_url: String,
    filter_keywords: Vec<String>,
}

impl Humbler {
    /// Base URL of the interactive documentation.
    pub closed spec fn base_url(&self) -> Seq<char> {
        self.swagger_ui_url@
    }

    /// Where the document is read from: a URL or a file path.
    pub closed spec fn source(&self) -> Seq<char> {
        self.openapi_json_url@
    }

    /// The keywords every kept path must hold.
    pub closed spec fn keywords(&self) -> Seq<Seq<char>> {
        self.filter_keywords@.map_values(|k: String| k@)
    }

    pub fn new(swagger_ui_url: String, openapi_json_url: String) -> (h: Self)
        ensures
            h.base_url() == swagger_ui_url@,
            h.source() == openapi_json_url@,
            h.keywords() == Seq::<Seq<char>>::empty(),
    {
        let h = Humbler { swagger_ui_url, openapi_json_url, filter_keywords: Vec::new() };
        assert(h.keywords() =~= Seq::<Seq<char>>::empty());
        h
    }

    /// Restricts the catalog to the paths that hold every keyword of
    /// `config`.
    pub fn filter_on(self, config: Config) -> (h: Self)
        ensures
            h.base_url() == self.base_url(),
            h.source() == self.source(),
            h.keywords() == config.filter_keywords@.map_values(|k: String| k@),
    {
        Humbler { filter_keywords: config.filter_keywords, ..self }
    }

    /// Where the document is read from.
    pub fn openapi_json_url(&self) -> (r: &String)
        ensures
            r@ == self.source(),
    {
        &self.openapi_json_url
    }

    /// The catalog of `document`: its kept paths in order, and each path's
    /// operations in order. Any failure aborts the whole build.
    pub fn get_api_infos(&self, document: &Document) -> (r: Result<Vec<ApiInfo>, BuildError>)
        ensures
            match r {
                Ok(v) => catalog(document.components@, self.base_url(), self.keywords(), document.paths@)
                    == Ok::<Seq<ApiInfoView>, BuildFailure>(infos_view(v@)),
                Err(e) => catalog(document.components@, self.base_url(), self.keywords(), document.paths@)
                    == Err::<Seq<ApiInfoView>, BuildFailure>(e@),
            },
    {
        let ghost comps = document.components@;
        let ghost base = self.base_url();
        let ghost kw = self.keywords();
        let ghost paths = document.paths@;
        let mut infos: Vec<ApiInfo> = Vec::new();
        let mut i: usize = 0;
        assert(infos_view(infos@) =~= Seq::<ApiInfoView>::empty());
        while i < document.paths.len()
            invariant
                i <= paths.len(),
                comps == document.components@,
                base == self.base_url(),
                kw == self.keywords(),
                paths == document.paths@,
                catalog(comps, base, kw, paths.subrange(0, i as int)) == Ok::<Seq<ApiInfoView>, BuildFailure>(infos_view(infos@)),
            decreases paths.len() - i,
        {
            let ghost sub = paths.subrange(0, i + 1);
            assert(sub.drop_last() =~= paths.subrange(0, i as int));
            assert(sub.last() == paths[i as int]);
            let entry = &document.paths[i];
            if path_matches(&self.filter_keywords, &entry.0) {
                if let RefOr::Item(item) = &entry.1 {
                    let ghost ops = item.operations@;
                    let ghost before = infos_view(infos@);
                    let mut j: usize = 0;
                    assert(infos_view(infos@) =~= before + Seq::<ApiInfoView>::empty());
                    while j < item.operations.len()
                        invariant
                            j <= ops.len(),
                            ops == item.operations@,
                            i < paths.len(),
                            comps == document.components@,
                            base == self.base_url(),
                            kw == self.keywords(),
                            paths == document.paths@,
                            *entry == paths[i as int],
                            entry.1 == RefOr::Item(*item),
                            keeps_path(kw, entry.0@),
                            catalog(comps, base, kw, paths.subrange(0, i as int)) == Ok::<Seq<ApiInfoView>, BuildFailure>(before),
                            operations_info(comps, base, entry.0@, ops.subrange(0, j as int)) matches Ok(cur)
                                && infos_view(infos@) == before + cur,
                        decreases ops.len() - j,
                    {
                        let ghost osub = ops.subrange(0, j + 1);
                        assert(osub.drop_last() =~= ops.subrange(0, j as int));
                        assert(osub.last() == ops[j as int]);
                        let op = &item.operations[j];
                        match extract_api_info(&self.swagger_ui_url, &document.components, &entry.0, &op.0, &op.1) {
                            Ok(info) => {
                                let ghost old_infos = infos@;
                                infos.push(info);
                                assert(infos_view(infos@) =~= infos_view(old_infos).push(info@));
                            },
                            Err(kind) => {
                                let e = BuildError { path: entry.0.clone(), method: op.0.clone(), kind };
                                proof {
                                    lemma_operations_error(comps, base, entry.0@, ops, j + 1);
                                    assert(ops.subrange(0, ops.len() as int) =~= ops);
                                    assert(operations_info(comps, base, entry.0@, ops) == Err::<Seq<ApiInfoView>, BuildFailure>(e@));
                                    assert(path_info(comps, base, kw, paths[i as int]) == Err::<Seq<ApiInfoView>, BuildFailure>(e@));
                                    let sub = paths.subrange(0, i + 1);
                                    assert(sub.drop_last() =~= paths.subrange(0, i as int));
                                    assert(sub.last() == paths[i as int]);
                                    assert(catalog(comps, base, kw, sub) == Err::<Seq<ApiInfoView>, BuildFailure>(e@));
                                    lemma_catalog_error(comps, base, kw, paths, i + 1);
                                }
                                return Err(e);
                            },
                        }
                        j += 1;
                    }
                    assert(ops.subrange(0, ops.len() as int) =~= ops);
                }
            }
            i += 1;
        }
        assert(paths.subrange(0, paths.len() as int) =~= paths);
        Ok(infos)
    }

    /// The catalog of `document` as a markdown table.
    pub fn run(&self, document: &Document) -> (r: Result<String, BuildError>)
        ensures
            match catalog(document.components@, self.base_url(), self.keywords(), document.paths@) {
                Ok(v) => r matches Ok(s) && s@ == table_text(v),
                Err(e) => r matches Err(x) && x@ == e,
            },
    {
        match self.get_api_infos(document) {
            Ok(infos) => Ok(render_markdown_table(infos)),
            Err(e) => Err(e),
        }
    }
}

/// The parameter is a header parameter.
pub open spec fn is_header(p: RefOr<Parameter>) -> bool {
    p matches RefOr::Item(q) && q.location == ParameterLocation::Header
}

/// Header parameters contribute nothing: the parameters resolve as they do
/// with the headers left out.
pub proof fn lemma_headers_excluded(comps: Seq<(String, Schema)>, params: Seq<RefOr<Parameter>>)
    ensures
        parameters_of(comps, params) == parameters_of(comps, params.filter(|p: RefOr<Parameter>| !is_header(p))),
    decreases params.len(),
{
    let keep = |p: RefOr<Parameter>| !is_header(p);
    reveal(Seq::filter);
    if params.len() > 0 {
        lemma_headers_excluded(comps, params.drop_last());
        let f = params.drop_last().filter(keep);
        if keep(params.last()) {
            assert(params.filter(keep) == f.push(params.last()));
            assert(f.push(params.last()).drop_last() =~= f);
        } else {
            assert(params.filter(keep) == f);
        }
    }
}

/// An operation that fails to give an entry fails every path's entries it
/// is part of.
proof fn lemma_operation_fails(
    comps: Seq<(String, Schema)>,
    base: Seq<char>,
    path: Seq<char>,
    ops: Seq<(String, Operation)>,
    j: int,
)
    requires
        0 <= j < ops.len(),
        operation_info(comps, base, path, ops[j].0@, ops[j].1) is Err,
    ensures
        operations_info(comps, base, path, ops) is Err,
    decreases ops.len(),
{
    if j < ops.len() - 1 {
        let init = ops.drop_last();
        assert(init[j] == ops[j]);
        lemma_operation_fails(comps, base, path, init, j);
    }
}

proof fn lemma_path_fails(
    comps: Seq<(String, Schema)>,
    base: Seq<char>,
    keywords: Seq<Seq<char>>,
    paths: Seq<(String, RefOr<PathItem>)>,
    i: int,
)
    requires
        0 <= i < paths.len(),
        path_info(comps, base, keywords, paths[i]) is Err,
    ensures
        catalog(comps, base, keywords, paths) is Err,
    decreases paths.len(),
{
    if i < paths.len() - 1 {
        let init = paths.drop_last();
        assert(init[i] == paths[i]);
        lemma_path_fails(comps, base, keywords, init, i);
    }
}

/// An operation without an operation id on a kept path aborts the whole
/// catalog; where it is the first failure, with `MissingOperationId`.
pub proof fn lemma_missing_operation_id_aborts(
    comps: Seq<(String, Schema)>,
    base: Seq<char>,
    keywords: Seq<Seq<char>>,
    paths: Seq<(String, RefOr<PathItem>)>,
    i: int,
    item: PathItem,
    j: int,
)
    requires
        0 <= i < paths.len(),
        keeps_path(keywords, paths[i].0@),
        paths[i].1 == RefOr::Item(item),
        0 <= j < item.operations@.len(),
        item.operations@[j].1.operation_id is None,
    ensures
        catalog(comps, base, keywords, paths) is Err,
        operation_info(comps, base, paths[i].0@, item.operations@[j].0@, item.operations@[j].1) == Err::<
            ApiInfoView,
            CatalogError,
        >(CatalogError::MissingOperationId),
{
    lemma_operation_fails(comps, base, paths[i].0@, item.operations@, j);
    lemma_path_fails(comps, base, keywords, paths, i);
}

} // verus!
