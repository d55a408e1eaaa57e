//! The catalog as a markdown table.
use crate::catalog::{infos_view, ApiInfo, ApiInfoView};
use crate::skeleton::{entries_shape, lemma_entries_shape, precedes, shape_text, text_precedes, Shape};
use vstd::prelude::*;

verus! {

/// A parameter as `"name": skeleton`.
pub open spec fn param_text(name: Seq<char>, t: Shape) -> Seq<char> {
    "\""@ + name + "\": "@ + shape_text(t)
}

/// Where `t` goes in `s`: before the first text that does not precede it.
pub open spec fn sorted_position(s: Seq<Seq<char>>, t: Seq<char>) -> int
    decreases s.len(),
{
    if s.len() == 0 || !precedes(s[0], t) {
        0
    } else {
        1 + sorted_position(s.drop_first(), t)
    }
}

/// The texts in ascending order.
pub open spec fn sorted_texts(s: Seq<Seq<char>>) -> Seq<Seq<char>>
    decreases s.len(),
{
    if s.len() == 0 {
        Seq::empty()
    } else {
        let init = sorted_texts(s.drop_last());
        init.insert(sorted_position(init, s.last()), s.last())
    }
}

/// The texts separated by `sep`.
pub open spec fn joined(s: Seq<Seq<char>>, sep: Seq<char>) -> Seq<char>
    decreases s.len(),
{
    if s.len() == 0 {
        Seq::empty()
    } else if s.len() == 1 {
        s[0]
    } else {
        joined(s.drop_last(), sep) + sep + s.last()
    }
}

/// The parameters column: each parameter's text, sorted, comma separated.
pub open spec fn parameters_column(params: Seq<(Seq<char>, Shape)>) -> Seq<char> {
    joined(sorted_texts(params.map_values(|p: (Seq<char>, Shape)| param_text(p.0, p.1))), ", "@)
}

pub open spec fn or_empty(o: Option<Seq<char>>) -> Seq<char> {
    match o {
        Some(s) => s,
        None => Seq::empty(),
    }
}

/// One table row.
pub open spec fn row_text(info: ApiInfoView) -> Seq<char> {
    "| "@ + info.path + " | "@ + info.method + " | "@ + parameters_column(info.parameters) + " | "@
        + or_empty(info.request_body) + " | "@ + or_empty(info.response) + " | "@ + info.swagger_url
        + " |\n"@
}

pub open spec fn table_header() -> Seq<char> {
    "| Path | Method | Parameters | Request Body | Response | Swagger URL |\n"@
        + "| ---- | ------ | ---------- | ------------ | -------- | ----------- |\n"@
}

pub open spec fn rows_text(infos: Seq<ApiInfoView>) -> Seq<char>
    decreases infos.len(),
{
    if infos.len() == 0 {
        Seq::empty()
    } else {
        rows_text(infos.drop_last()) + row_text(infos.last())
    }
}

/// The whole table: header, then one row per entry in order.
pub open spec fn table_text(infos: Seq<ApiInfoView>) -> Seq<char> {
    table_header() + rows_text(infos)
}

proof fn lemma_sorted_position(s: Seq<Seq<char>>, t: Seq<char>, i: int)
    requires
        0 <= i <= s.len(),
        forall|j: int| 0 <= j < i ==> precedes(#[trigger] s[j], t),
        i == s.len() || !precedes(s[i], t),
    ensures
        sorted_position(s, t) == i,
    decreases i,
{
    if i > 0 {
        let d = s.drop_first();
        assert forall|j: int| 0 <= j < i - 1 implies precedes(#[trigger] d[j], t) by {
            assert(d[j] == s[j + 1]);
        }
        lemma_sorted_position(d, t, i - 1);
    }
}

/// Inserts `t` into `v` before the first text that does not precede it.
fn insert_sorted(v: &mut Vec<String>, t: String)
    ensures
        final(v)@.map_values(|s: String| s@) == old(v)@.map_values(|s: String| s@).insert(
            sorted_position(old(v)@.map_values(|s: String| s@), t@),
            t@,
        ),
{
    let ghost before = v@.map_values(|s: String| s@);
    let mut i: usize = 0;
    while i < v.len() && text_precedes(v[i].as_str(), t.as_str())
        invariant
            i <= v.len(),
            before == v@.map_values(|s: String| s@),
            forall|j: int| 0 <= j < i ==> precedes(#[trigger] before[j], t@),
        decreases v.len() - i,
    {
        i += 1;
    }
    proof {
        lemma_sorted_position(before, t@, i as int);
    }
    v.insert(i, t);
    assert(v@.map_values(|s: String| s@) =~= before.insert(i as int, t@));
}

/// The parameters column of a table row.
fn parameters_text(params: &Vec<(String, crate::skeleton::TypeSkeleton)>) -> (r: String)
    ensures
        r@ == parameters_column(entries_shape(params@)),
{
    let ghost ps = entries_shape(params@);
    let ghost texts = ps.map_values(|p: (Seq<char>, Shape)| param_text(p.0, p.1));
    proof {
        lemma_entries_shape(params@);
    }
    let mut sorted: Vec<String> = Vec::new();
    let mut i: usize = 0;
    assert(sorted@.map_values(|s: String| s@) =~= sorted_texts(texts.subrange(0, 0)));
    while i < params.len()
        invariant
            i <= params.len(),
            ps == entries_shape(params@),
            ps.len() == params@.len(),
            forall|j: int| 0 <= j < params.len() ==> #[trigger] ps[j] == (params@[j].0@, params@[j].1@),
            texts == ps.map_values(|p: (Seq<char>, Shape)| param_text(p.0, p.1)),
            sorted@.map_values(|s: String| s@) == sorted_texts(texts.subrange(0, i as int)),
        decreases params.len() - i,
    {
        let mut t = String::from_str("\"");
        t.append(params[i].0.as_str());
        t.append("\": ");
        let value = params[i].1.to_json();
        t.append(value.as_str());
        assert(t@ == texts[i as int]);
        let ghost sub = texts.subrange(0, i + 1);
        assert(sub.drop_last() =~= texts.subrange(0, i as int));
        insert_sorted(&mut sorted, t);
        i += 1;
    }
    assert(texts.subrange(0, params.len() as int) =~= texts);
    let ghost st = sorted@.map_values(|s: String| s@);
    let mut out = String::new();
    let mut k: usize = 0;
    assert(out@ =~= joined(st.subrange(0, 0), ", "@));
    while k < sorted.len()
        invariant
            k <= sorted.len(),
            st == sorted@.map_values(|s: String| s@),
            out@ == joined(st.subrange(0, k as int), ", "@),
        decreases sorted.len() - k,
    {
        if k > 0 {
            out.append(", ");
        }
        out.append(sorted[k].as_str());
        let ghost sub = st.subrange(0, k + 1);
        assert(sub.drop_last() =~= st.subrange(0, k as int));
        k += 1;
    }
    assert(st.subrange(0, sorted.len() as int) =~= st);
    out
}

/// One table row: path, method, parameters, request body, response and
/// documentation link.
fn render_row(info: &ApiInfo) -> (r: String)
    ensures
        r@ == row_text(info@),
{
    let parameters = parameters_text(&info.parameters);
    let mut row = String::from_str("| ");
    row.append(info.path.as_str());
    row.append(" | ");
    row.append(info.method.as_str());
    row.append(" | ");
    row.append(parameters.as_str());
    row.append(" | ");
    let ghost head = row@;
    if let Some(body) = &info.request_body {
        row.append(body.as_str());
    }
    assert(row@ == head + or_empty(info@.request_body));
    row.append(" | ");
    let ghost head = row@;
    if let Some(response) = &info.response {
        row.append(response.as_str());
    }
    assert(row@ == head + or_empty(info@.response));
    row.append(" | ");
    row.append(info.swagger_url.as_str());
    row.append(" |\n");
    row
}

/// Renders catalog entries as a markdown table: a header, then one row per
/// entry with its parameters sorted.
pub fn render_markdown_table(api_infos: Vec<ApiInfo>) -> (r: String)
    ensures
        r@ == table_text(infos_view(api_infos@)),
{
    let ghost infos = infos_view(api_infos@);
    let mut markdown = String::new();
    markdown.append("| Path | Method | Parameters | Request Body | Response | Swagger URL |\n");
    markdown.append("| ---- | ------ | ---------- | ------------ | -------- | ----------- |\n");
    let mut i: usize = 0;
    assert(infos.subrange(0, 0) =~= Seq::<ApiInfoView>::empty());
    while i < api_infos.len()
        invariant
            i <= api_infos.len(),
            infos == infos_view(api_infos@),
            markdown@ == table_header() + rows_text(infos.subrange(0, i as int)),
        decreases api_infos.len() - i,
    {
        let info = &api_infos[i];
        let row = render_row(info);
        markdown.append(row.as_str());
        let ghost sub = infos.subrange(0, i + 1);
        assert(sub.drop_last() =~= infos.subrange(0, i as int));
        assert(sub.last() == info@);
        i += 1;
    }
    assert(infos.subrange(0, api_infos.len() as int) =~= infos);
    markdown
}

} // verus!
